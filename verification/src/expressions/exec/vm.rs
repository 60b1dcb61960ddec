//! The VM proper: running bytecode from a position.

use vstd::prelude::*;
use super::{
    class_follow_ok, follow_byte_ok, follow_disjoint_ok, lemma_plain_rep_program, next_pos, rep_inst_ok,
    rep_shape_ok, Engine, MAX_RUN_DEPTH,
};
use super::analyze::{plan_agrees, plans_agree};
use super::classes::{class_hit_in, class_spec, fold_eq, fold_spec};
use super::plain::{
    anchor_spec, any_step, ascii_lit, char_at_spec, char_before_spec, char_step, chars_step,
    char_matches, class_step, compares_bytes, first_end, lit_bytes_at, lit_step, pick_down, pick_up, plain_inst,
    as_ints, lemma_first_byte, picked, rep_end, rep_trail, same_end, seg_bound_spec, steps_from,
    word_at_spec, word_before_spec,
};
use super::analyze::{ends_at, passes_to, reads_first};
use super::super::meaning::lemma_ascii_byte_char;
use super::super::ast::{AbsentKind, Anchor, Backref, CallTarget, CharClass};
use super::super::callout::{CalloutCtx, CalloutDir, CalloutResult, Callouts};
use super::super::encoding::Encoding;
use super::super::error::{Error, ErrorKind};
use super::super::opcode::{default_shape, plan_bit, ClassPlan, CondTest, Inst, Program, SimpleBody};
use super::super::optimize::sat_mul32;
use super::super::syntax::Options;
use super::super::unicode::{self, grapheme_break};
use crate::text::str_eq;

verus! {

/// A line feed: what `.` does not match and `^`/`$` look for.
pub fn is_newline_cp(cp: u32) -> (r: bool)
    ensures
        r == (cp == 0x0a),
{
    cp == 0x0a
}

/// Where `\R` that starts at `pos` ends: `\r\n` together, else one newline
/// character.
pub open spec fn newline_end(enc: Encoding, hay: Seq<u8>, pos: int, end: int) -> Option<int> {
    match char_at_spec(enc, hay, pos, end) {
        None => None,
        Some((cp, n)) => if cp == 0x0d {
            match char_at_spec(enc, hay, pos + n, end) {
                Some((c2, n2)) => if c2 == 0x0a {
                    Some(pos + n + n2)
                } else {
                    Some(pos + n)
                },
                None => Some(pos + n),
            }
        } else if cp == 0x0a || cp == 0x0b || cp == 0x0c || cp == 0x85 || cp == 0x2028 || cp
            == 0x2029 {
            Some(pos + n)
        } else {
            None
        },
    }
}

/// The end of the run of word characters that starts at `p`.
pub open spec fn word_run_end(enc: Encoding, opt: Options, hay: Seq<u8>, p: int, end: int) -> int
    decreases end - p,
{
    match char_at_spec(enc, hay, p, end) {
        Some((c, n)) => if n >= 1 && p + n <= end && unicode::word_spec(enc, opt, c) {
            word_run_end(enc, opt, hay, p + n, end)
        } else {
            p
        },
        None => p,
    }
}

/// The end of the grapheme cluster that goes on at `p` after `prev`.
pub open spec fn cluster_end(enc: Encoding, hay: Seq<u8>, prev: u32, p: int, end: int) -> int
    decreases end - p,
{
    match char_at_spec(enc, hay, p, end) {
        Some((c, n)) => if n >= 1 && p + n <= end && !unicode::grapheme_break_spec(Some(prev), c) {
            cluster_end(enc, hay, c, p + n, end)
        } else {
            p
        },
        None => p,
    }
}

/// Where `\X` that starts at `pos` ends: one word segment under
/// `TEXT_SEGMENT_WORD`, else one extended grapheme cluster.
pub open spec fn segment_end(enc: Encoding, opt: Options, hay: Seq<u8>, pos: int, end: int) -> Option<
    int,
> {
    match char_at_spec(enc, hay, pos, end) {
        None => None,
        Some((first, n)) => Some(
            if opt.has(Options::text_segment_word_spec()) {
                if unicode::word_spec(enc, opt, first) {
                    word_run_end(enc, opt, hay, pos + n, end)
                } else {
                    pos + n
                }
            } else {
                cluster_end(enc, hay, first, pos + n, end)
            },
        ),
    }
}

/// Where the text at `b` (read up to `end`) ends that matches the text at
/// `a..e` character by character under case folding; `None` where a
/// character cannot be read or does not fold to the same.
pub open spec fn fold_match_end(
    enc: Encoding,
    hay: Seq<u8>,
    a: int,
    e: int,
    b: int,
    end: int,
    ascii: bool,
) -> Option<int>
    decreases e - a,
{
    if a >= e {
        Some(b)
    } else {
        match (char_at_spec(enc, hay, a, e), char_at_spec(enc, hay, b, end)) {
            (Some((ca, na)), Some((cb, nb))) => if na >= 1 && (ca == cb || fold_spec(ca, ascii)
                == fold_spec(cb, ascii)) {
                fold_match_end(enc, hay, a + na, e, b + nb, end, ascii)
            } else {
                None
            },
            _ => None,
        }
    }
}

/// The code points `\R` takes alone.
pub fn is_general_newline_cp(cp: u32) -> (r: bool)
    ensures
        r == (cp == 0x0a || cp == 0x0b || cp == 0x0c || cp == 0x0d || cp == 0x85 || cp == 0x2028
            || cp == 0x2029),
{
    cp == 0x0a || cp == 0x0b || cp == 0x0c || cp == 0x0d || cp == 0x85 || cp == 0x2028 || cp
        == 0x2029
}

/// ASCII lower case of a byte.
fn ascii_lower_byte(b: u8) -> (r: u8)
    ensures
        r == (if 65 <= b <= 90 { (b + 32) as u8 } else { b }),
{
    if 65 <= b && b <= 90 {
        b + 32
    } else {
        b
    }
}

/// The first index of `names` from `i` on that holds `name`.
pub open spec fn first_name(names: Seq<Option<String>>, name: Seq<char>, i: int) -> Option<usize>
    decreases names.len() - i,
{
    if i < 0 || i >= names.len() {
        None
    } else if names[i] matches Some(s) && s@ == name {
        Some(i as usize)
    } else {
        first_name(names, name, i + 1)
    }
}

/// `a + b`, or `u64::MAX` when that does not fit.
pub open spec fn sat_add64(a: u64, b: u64) -> u64 {
    if a + b > u64::MAX {
        u64::MAX
    } else {
        (a + b) as u64
    }
}

/// The errors a run can end with: a retry, stack or call limit reached, or
/// an `(*ERROR)` callout.
pub open spec fn run_error(k: ErrorKind) -> bool {
    ||| k == ErrorKind::RetryLimitMatch
    ||| k == ErrorKind::RetryLimitSearch
    ||| k == ErrorKind::MatchStackLimit
    ||| k == ErrorKind::SubexpCallLimit
    ||| k == ErrorKind::InvalidArgument
}

/// A class's bitmap answers for each ASCII character as the class does.
proof fn lemma_plan_bit(
    inst: Inst,
    plan: Option<ClassPlan>,
    enc: Encoding,
    props: Seq<super::super::unicode::UserProperty>,
    cp: u32,
)
    requires
        plan_agrees(inst, plan, enc, props),
        plan is Some,
        inst is Class,
        cp < 128,
    ensures
        plan_bit(plan->0.ascii, cp) == class_spec(inst->Class_class, cp, enc, plan->0.options, props),
{
}

/// The byte at `q` is ASCII and a member by the bitmap `ascii`.
pub open spec fn run_hit(hay: Seq<u8>, ascii: [u64; 2], q: int) -> bool {
    0 <= q < hay.len() && hay[q] < 0x80 && plan_bit(ascii, hay[q] as u32)
}

/// Where the instruction at `fpc` reads the ASCII character `fc` first, a
/// match from there at an ASCII byte starts with a character `fc` stands
/// for.
proof fn lemma_follow_reads(
    insts: Seq<Inst>,
    enc: Encoding,
    hay: Seq<u8>,
    end: int,
    opt: Options,
    props: Seq<super::super::unicode::UserProperty>,
    fpc: int,
    stop: Option<usize>,
    q: int,
    fc: u32,
)
    requires
        0 <= fpc < insts.len(),
        reads_first(insts[fpc], fc),
        !(stop matches Some(s) && s as int == fpc),
        enc.min_len_spec() == 1,
        0 <= q < end <= hay.len(),
        hay[q] < 0x80,
    ensures
        first_end(insts, enc, hay, end, opt, props, fpc, q, stop) is Some ==> char_matches(
            fc,
            hay[q] as u32,
            opt,
        ),
{
    lemma_ascii_byte_char(enc, hay, q, end);
    match insts[fpc] {
        Inst::Literal(v) => {
            super::super::meaning::lemma_lit_step_chars(enc, hay, end, opt, q, v@);
        },
        _ => {},
    }
}

/// The byte `b` can begin the character `fb` must be: the same byte, or the
/// same letter in either case when `icase`.
pub open spec fn follow_hit(b: u8, fb: u8, icase: bool) -> bool {
    if icase {
        (if 65 <= b <= 90 { b + 32 } else { b as int }) == (if 65 <= fb <= 90 {
            fb + 32
        } else {
            fb as int
        })
    } else {
        b == fb
    }
}

/// What must follow a repetition is reached from `after` and reads `fc`
/// first; the attempt right after the longest run failed. Then at every
/// ASCII place before that one where the byte cannot begin `fc`, what
/// follows fails too; and where case is kept and the class's bitmap leaves
/// `fc` out, it fails at every member of the run.
proof fn lemma_follow_skip(
    insts: Seq<Inst>,
    enc: Encoding,
    hay: Seq<u8>,
    end: int,
    opt: Options,
    props: Seq<super::super::unicode::UserProperty>,
    after: int,
    fpc: int,
    stop: Option<usize>,
    fc: u32,
    ascii: [u64; 2],
    lo: int,
    hi: int,
)
    requires
        passes_to(insts, after, fpc),
        0 <= after,
        0 <= fpc < insts.len(),
        reads_first(insts[fpc], fc),
        enc.min_len_spec() == 1,
        lo <= hi <= end <= hay.len(),
        first_end(insts, enc, hay, end, opt, props, after, hi, stop) is None,
        forall|q: int| lo <= q < hi ==> #[trigger] run_hit(hay, ascii, q),
    ensures
        forall|q: int|
            lo <= q < hi && !follow_hit(hay[q], fc as u8, opt.has(Options::ignorecase_spec()))
                ==> #[trigger] first_end(insts, enc, hay, end, opt, props, after, q, stop) is None,
        !opt.has(Options::ignorecase_spec()) && !plan_bit(ascii, fc) ==> forall|q: int|
            lo <= q < hi ==> #[trigger] first_end(insts, enc, hay, end, opt, props, after, q, stop)
                is None,
{
    lemma_follow_path(insts, enc, hay, end, opt, props, after, fpc, stop);
    if stop matches Some(sv) && sv as int == fpc {
        assert(first_end(insts, enc, hay, end, opt, props, fpc, hi, stop) is Some);
    }
    assert forall|q: int| lo <= q < hi && first_end(insts, enc, hay, end, opt, props, after, q, stop)
        is Some implies follow_hit(hay[q], fc as u8, opt.has(Options::ignorecase_spec())) && (
        !opt.has(Options::ignorecase_spec()) ==> plan_bit(ascii, fc)) by {
        assert(run_hit(hay, ascii, q));
        assert(first_end(insts, enc, hay, end, opt, props, after, q, stop) == first_end(
            insts,
            enc,
            hay,
            end,
            opt,
            props,
            fpc,
            q,
            stop,
        ));
        lemma_follow_reads(insts, enc, hay, end, opt, props, fpc, stop, q, fc);
    }
}

/// What follows a repetition, read from `a` through steps that read nothing
/// up to `b`: it matches at every place (the run stops on the way), at no
/// place, or exactly as from `b`.
proof fn lemma_follow_path(
    insts: Seq<Inst>,
    enc: Encoding,
    hay: Seq<u8>,
    end: int,
    opt: Options,
    props: Seq<super::super::unicode::UserProperty>,
    a: int,
    b: int,
    stop: Option<usize>,
)
    requires
        passes_to(insts, a, b),
        0 <= a,
        b < insts.len(),
    ensures
        ({
            ||| forall|q: int| #[trigger] first_end(insts, enc, hay, end, opt, props, a, q, stop) == Some(q)
            ||| forall|q: int| #[trigger] first_end(insts, enc, hay, end, opt, props, a, q, stop) is None
            ||| forall|q: int| #[trigger] first_end(insts, enc, hay, end, opt, props, a, q, stop)
                == first_end(insts, enc, hay, end, opt, props, b, q, stop)
        }),
    decreases b - a,
{
    if a != b {
        if stop matches Some(s) && s as int == a {
            assert forall|q: int| #[trigger] first_end(insts, enc, hay, end, opt, props, a, q, stop)
                == Some(q) by {}
        } else {
            match insts[a] {
                Inst::Nop | Inst::Save(_) => {
                    lemma_follow_path(insts, enc, hay, end, opt, props, a + 1, b, stop);
                    assert forall|q: int| #[trigger] first_end(insts, enc, hay, end, opt, props, a, q, stop)
                        == first_end(insts, enc, hay, end, opt, props, a + 1, q, stop) by {}
                },
                Inst::Jump(j) => {
                    lemma_follow_path(insts, enc, hay, end, opt, props, j as int, b, stop);
                    assert forall|q: int| #[trigger] first_end(insts, enc, hay, end, opt, props, a, q, stop)
                        == first_end(insts, enc, hay, end, opt, props, j as int, q, stop) by {}
                },
                _ => {
                    assert forall|q: int| #[trigger] first_end(insts, enc, hay, end, opt, props, a, q, stop)
                        is None by {}
                },
            }
        }
    }
}

/// Where no length from `min` to `k` lets the rest match, the greedy choice
/// finds none.
proof fn lemma_pick_down_none(t: Seq<int>, rest: spec_fn(int) -> Option<int>, min: int, k: int)
    requires
        forall|j: int| min <= j <= k && 0 <= j < t.len() ==> #[trigger] rest(t[j]) is None,
    ensures
        pick_down(t, rest, min, k) is None,
    decreases k + 1,
{
    if !(k < min || k < 0 || k >= t.len()) {
        assert(rest(t[k]) is None);
        lemma_pick_down_none(t, rest, min, k - 1);
    }
}

/// In an encoding whose characters can be one byte long, a step over an
/// ASCII character, case kept, compares one byte.
proof fn lemma_ascii_char_step(enc: Encoding, hay: Seq<u8>, end: int, opt: Options, q: int, want: u32)
    requires
        enc.min_len_spec() == 1,
        want < 0x80,
        !opt.has(Options::ignorecase_spec()),
        0 <= q,
        end <= hay.len(),
    ensures
        char_step(enc, hay, end, opt, q, want) == (if q < end && hay[q] as u32 == want {
            Some(q + 1)
        } else {
            None
        }),
{
    if q < end && hay[q] as u32 == want {
        lemma_ascii_byte_char(enc, hay, q, end);
    } else if char_at_spec(enc, hay, q, end) is Some {
        lemma_first_byte(enc, hay, q, end);
    }
}

impl<'a, H: Callouts> Engine<'a, H> {
    /// `next` keeps the options, the `\K` point and the number of capture
    /// slots of `self`, as a sub-match of the plain fragment does.
    pub open spec fn keeps(&self, next: &Self) -> bool {
        &&& next.options == self.options
        &&& next.keep == self.keep
        &&& next.captures@.len() == self.captures@.len()
    }

    /// A step over the character `want`, as a function of where it starts.
    pub open spec fn char_fn(&self, want: u32) -> spec_fn(int) -> Option<int> {
        |p: int| char_step(self.enc, self.hay@, self.hay_end as int, self.options, p, want)
    }

    /// A step over a member of `cc`, as a function of where it starts.
    pub open spec fn class_fn(&self, cc: CharClass) -> spec_fn(int) -> Option<int> {
        |p: int| class_step(
            self.enc,
            self.hay@,
            self.hay_end as int,
            self.options,
            self.user_props@,
            p,
            cc,
        )
    }

    /// What a repetition at `at` matches, read off the program, is
    /// `rep_end` over its body and what follows.
    proof fn lemma_repeat_end(&self, at: int, cur: int, stop: Option<usize>)
        requires
            self.inv(),
            0 <= at < self.prog.insts@.len(),
            self.prog.insts@[at] is Repeat,
            stop != Some(at as usize),
        ensures
            match self.prog.insts@[at] {
                Inst::Repeat { body, after, min, max, greedy, possessive } => self.plain_end(
                    at,
                    cur,
                    stop,
                ) == rep_end(
                    self.body_fn(body as int, after as int),
                    self.rest_fn(after as int, stop),
                    min,
                    max,
                    greedy,
                    possessive,
                    cur,
                    self.hay_end as int,
                ),
                _ => true,
            },
    {
        let insts = self.prog.insts@;
        assert(super::super::opcode::inst_forward(insts[at], at, insts.len() as int));
        assert(self.prog.insts.len() == insts.len());
        assert((at as usize) as int == at);
        match insts[at] {
            Inst::Repeat { body, after, .. } => {
                assert(((after as int) as usize) == (after as usize));
            },
            _ => {},
        }
    }

    /// A body of one character or one class that goes straight on to
    /// `after` matches what that one instruction does.
    proof fn lemma_one_body(&self, body: int, after: int)
        requires
            self.inv(),
            0 <= body < self.prog.insts@.len(),
            ends_at(self.prog.insts@, body, after),
        ensures
            forall|p: int| #[trigger] first_end(
                self.prog.insts@,
                self.enc,
                self.hay@,
                self.hay_end as int,
                self.options,
                self.user_props@,
                body,
                p,
                Some(after as usize),
            ) == match self.prog.insts@[body] {
                Inst::Char(w) => char_step(self.enc, self.hay@, self.hay_end as int, self.options, p, w),
                Inst::Class { class } => class_step(
                    self.enc,
                    self.hay@,
                    self.hay_end as int,
                    self.options,
                    self.user_props@,
                    p,
                    class,
                ),
                _ => self.plain_end(body, p, Some(after as usize)),
            },
    {
        let insts = self.prog.insts@;
        let n = insts.len() as int;
        if body + 1 < n {
            assert(super::super::opcode::inst_forward(insts[body + 1], body + 1, n));
        }
        assert(0 <= after <= n);
        assert(self.prog.insts.len() == n);
        assert((after as usize) as int == after);
        assert(after != body);
        assert forall|q: int| #[trigger] self.plain_end(body + 1, q, Some(after as usize)) == Some(q) by {
            if body + 1 != after {
                assert(insts[body + 1] is Jump);
                assert(self.plain_end(after, q, Some(after as usize)) == Some(q));
            }
        }
        assert forall|p: int| #[trigger] first_end(
                self.prog.insts@,
                self.enc,
                self.hay@,
                self.hay_end as int,
                self.options,
                self.user_props@,
                body,
                p,
                Some(after as usize),
            ) == match insts[body] {
            Inst::Char(w) => char_step(self.enc, self.hay@, self.hay_end as int, self.options, p, w),
            Inst::Class { class } => class_step(
                self.enc,
                self.hay@,
                self.hay_end as int,
                self.options,
                self.user_props@,
                p,
                class,
            ),
            _ => self.plain_end(body, p, Some(after as usize)),
        } by {
            match insts[body] {
                Inst::Char(w) => {
                    match char_step(self.enc, self.hay@, self.hay_end as int, self.options, p, w) {
                        Some(q) => {
                            assert(self.plain_end(body + 1, q, Some(after as usize)) == Some(q));
                        },
                        None => {},
                    }
                },
                Inst::Class { class } => {
                    match class_step(
                        self.enc,
                        self.hay@,
                        self.hay_end as int,
                        self.options,
                        self.user_props@,
                        p,
                        class,
                    ) {
                        Some(q) => {
                            assert(self.plain_end(body + 1, q, Some(after as usize)) == Some(q));
                        },
                        None => {},
                    }
                },
                _ => {},
            }
        }
    }

    /// Group `n`'s span, when both ends are set, in order, inside the
    /// haystack.
    pub open spec fn span_spec(&self, n: usize) -> Option<(usize, usize)> {
        if n > usize::MAX / 2 - 1 {
            None
        } else {
            let i = (n * 2) as usize;
            let j = (n * 2 + 1) as usize;
            let a = if i < self.captures@.len() {
                self.captures@[i as int]
            } else {
                None
            };
            let b = if j < self.captures@.len() {
                self.captures@[j as int]
            } else {
                None
            };
            match (a, b) {
                (Some(a), Some(b)) => if a <= b && b <= self.hay@.len() {
                    Some((a, b))
                } else {
                    None
                },
                _ => None,
            }
        }
    }

    /// The group a back-reference names: a number (negative ones count back
    /// from the group count), a name's first group, or a relative number.
    /// Where a backreference `b` that starts at `pos` ends: the group's
    /// text again, byte for byte, or character by character under
    /// `IGNORECASE`; `None` for an unset or unknown group or no match.
    pub open spec fn backref_spec(&self, b: Backref, pos: int) -> Option<int> {
        match self.group_index_spec(b) {
            None => None,
            Some(idx) => match self.span_spec(idx) {
                None => None,
                Some((s, e)) => if e - s > self.hay_end - pos {
                    None
                } else if self.options.has(Options::ignorecase_spec()) {
                    fold_match_end(
                        self.enc,
                        self.hay@,
                        s as int,
                        e as int,
                        pos,
                        self.hay_end as int,
                        self.options.has(Options::ignorecase_is_ascii_spec()),
                    )
                } else if self.hay@.subrange(pos, pos + (e - s)) == self.hay@.subrange(
                    s as int,
                    e as int,
                ) {
                    Some(pos + (e - s))
                } else {
                    None
                },
            },
        }
    }

    pub open spec fn group_index_spec(&self, b: Backref) -> Option<usize> {
        let base = self.prog.capture_count as i32;
        match b {
            Backref::Number(n) => if n < 0 {
                let i = base.wrapping_add(n);
                if i > 0 {
                    Some(i as usize)
                } else {
                    None
                }
            } else {
                Some(n as usize)
            },
            Backref::Name(name) => first_name(self.prog.names@, name@, 0),
            Backref::Rel { back, n } => {
                let i = if back {
                    base.wrapping_sub(n)
                } else {
                    n
                };
                if i > 0 {
                    Some(i as usize)
                } else {
                    None
                }
            },
        }
    }

    fn bump_retry_n(&mut self, n: u64) -> (r: Result<(), Error>)
        requires
            old(self).inv(),
        ensures
            old(self).frame(&*final(self)),
            final(self).count == old(self).count,
            final(self).options == old(self).options,
            final(self).keep == old(self).keep,
            final(self).captures@ == old(self).captures@,
            final(self).skip_to == old(self).skip_to,
            final(self).retry_limit_in_match == old(self).retry_limit_in_match,
            final(self).retry_limit_in_search == old(self).retry_limit_in_search,
            final(self).retry_match == (if n == 0 {
                old(self).retry_match
            } else {
                sat_add64(old(self).retry_match, n)
            }),
            final(self).retry_search == (if n == 0 {
                old(self).retry_search
            } else {
                sat_add64(old(self).retry_search, n)
            }),
            r is Err <==> ((final(self).retry_limit_in_match != 0 && final(self).retry_match
                > final(self).retry_limit_in_match) || (final(self).retry_limit_in_search != 0
                && final(self).retry_search > final(self).retry_limit_in_search)) && n != 0,
            r matches Err(e) ==> (e.kind == ErrorKind::RetryLimitMatch || e.kind
                == ErrorKind::RetryLimitSearch),
    {
        if n == 0 {
            return Ok(());
        }
        self.retry_match = self.retry_match.saturating_add(n);
        self.retry_search = self.retry_search.saturating_add(n);
        if self.retry_limit_in_match != 0 && self.retry_match > self.retry_limit_in_match {
            return Err(Error::kind_msg(ErrorKind::RetryLimitMatch, "retry limit in match"));
        }
        if self.retry_limit_in_search != 0 && self.retry_search > self.retry_limit_in_search {
            return Err(Error::kind_msg(ErrorKind::RetryLimitSearch, "retry limit in search"));
        }
        Ok(())
    }

    fn bump_retry(&mut self) -> (r: Result<(), Error>)
        requires
            old(self).inv(),
        ensures
            old(self).frame(&*final(self)),
            final(self).options == old(self).options,
            final(self).keep == old(self).keep,
            final(self).captures@ == old(self).captures@,
            final(self).skip_to == old(self).skip_to,
            final(self).retry_limit_in_match == old(self).retry_limit_in_match,
            final(self).retry_limit_in_search == old(self).retry_limit_in_search,
            final(self).retry_match == sat_add64(old(self).retry_match, 1),
            final(self).retry_search == sat_add64(old(self).retry_search, 1),
            r is Err <==> ((final(self).retry_limit_in_match != 0 && final(self).retry_match
                > final(self).retry_limit_in_match) || (final(self).retry_limit_in_search != 0
                && final(self).retry_search > final(self).retry_limit_in_search)),
            r matches Err(e) ==> (e.kind == ErrorKind::RetryLimitMatch || e.kind
                == ErrorKind::RetryLimitSearch),
    {
        self.bump_retry_n(1)
    }

    /// Bound an outstanding repetition trail with the match-stack limit.
    fn check_repeat_depth(&self, depth: usize) -> (r: Result<(), Error>)
        ensures
            r is Err <==> (self.stack_limit != 0 && depth > self.stack_limit),
            r matches Err(e) ==> e.kind == ErrorKind::MatchStackLimit,
    {
        if self.stack_limit != 0 && depth as u64 > self.stack_limit as u64 {
            return Err(Error::kind_msg(ErrorKind::MatchStackLimit, "match stack limit"));
        }
        Ok(())
    }

    /// Record where `(*SKIP)` was reached; the furthest one wins.
    fn note_skip(&mut self, pos: usize)
        requires
            old(self).inv(),
            pos <= old(self).hay@.len(),
        ensures
            old(self).frame(&*final(self)),
            final(self).skip_to == Some(
                match old(self).skip_to {
                    Some(s) => if s > pos {
                        s
                    } else {
                        pos
                    },
                    None => pos,
                },
            ),
            final(self).options == old(self).options,
            final(self).keep == old(self).keep,
            final(self).captures@ == old(self).captures@,
    {
        self.skip_to = Some(
            match self.skip_to {
                Some(s) => if s > pos {
                    s
                } else {
                    pos
                },
                None => pos,
            },
        );
    }

    /// Snapshot of the capture state, when anything can write it.
    fn save_caps(&self) -> (r: Option<(Vec<Option<usize>>, usize)>)
        ensures
            r matches Some((c, _)) ==> c@.len() == self.captures@.len(),
            r is Some <==> self.writes_caps,
            r matches Some((c, h)) ==> c@ == self.captures@ && h == self.hist@.len(),
    {
        if self.writes_caps {
            let c = self.captures.clone();
            proof {
                assert forall|k: int| 0 <= k < c@.len() implies c@[k] == self.captures@[k] by {
                    assert(cloned::<Option<usize>>(self.captures@[k], c@[k]));
                }
                assert(c@ =~= self.captures@);
            }
            Some((c, self.hist.len()))
        } else {
            None
        }
    }

    fn restore_caps(&mut self, saved: Option<(Vec<Option<usize>>, usize)>)
        requires
            old(self).inv(),
        ensures
            old(self).frame(&*final(self)),
            final(self).count == old(self).count,
            final(self).options == old(self).options,
            final(self).keep == old(self).keep,
            final(self).skip_to == old(self).skip_to,
            match saved {
                Some((c, _)) => final(self).captures@ == c@,
                None => final(self).captures@ == old(self).captures@,
            },
    {
        match saved {
            Some((caps, hlen)) => {
                self.captures = caps;
                self.hist.truncate(hlen);
            },
            None => {},
        }
    }

    pub fn run(&mut self, pc: usize, pos: usize) -> (r: Result<Option<usize>, Error>)
        requires
            old(self).inv(),
            pos <= old(self).hay_end,
        ensures
            r matches Err(e) ==> run_error(e.kind),
            old(self).frame(&*final(self)),
            r matches Ok(Some(n)) ==> pos <= n <= old(self).hay_end,
            old(self).plain() && old(self).anchors_ok() ==> final(self).options == old(self).options && final(self).keep
                == old(self).keep && final(self).captures@.len() == old(self).captures@.len()
                && final(self).skip_to == old(self).skip_to && (r
                matches Ok(v) ==> same_end(
                v,
                old(self).plain_end(pc as int, pos as int, None),
            )),
            old(self).rep_plain() && old(self).anchors_ok() ==> final(self).options == old(self).options && final(self).keep
                == old(self).keep && final(self).captures@.len() == old(self).captures@.len() && (r
                matches Ok(v) ==> same_end(
                v,
                old(self).plain_end(pc as int, pos as int, None),
            )),
            old(self).plain() && pc <= old(self).prog.insts@.len() && old(self).unlimited_for(
                old(self).prog.insts@.len() - pc + 1,
            ) ==> r is Ok,
        decreases MAX_RUN_DEPTH - old(self).rdepth, 1int,
    {
        self.run_stop(pc, pos, None)
    }

    fn run_until(&mut self, start: usize, end: usize, pos: usize) -> (r: Result<Option<usize>, Error>)
        requires
            old(self).inv(),
            pos <= old(self).hay_end,
        ensures
            r matches Err(e) ==> run_error(e.kind),
            old(self).frame(&*final(self)),
            r matches Ok(Some(n)) ==> pos <= n <= old(self).hay_end,
            old(self).plain() && old(self).anchors_ok() ==> final(self).options == old(self).options && final(self).keep
                == old(self).keep && final(self).captures@.len() == old(self).captures@.len()
                && final(self).skip_to == old(self).skip_to && (r
                matches Ok(v) ==> same_end(
                v,
                old(self).plain_end(start as int, pos as int, Some(end)),
            )),
            old(self).rep_plain() && old(self).anchors_ok() ==> final(self).options == old(self).options && final(self).keep
                == old(self).keep && final(self).captures@.len() == old(self).captures@.len() && (r
                matches Ok(v) ==> same_end(
                v,
                old(self).plain_end(start as int, pos as int, Some(end)),
            )),
            old(self).plain() && start <= old(self).prog.insts@.len() && old(self).unlimited_for(
                old(self).prog.insts@.len() - start + 1,
            ) ==> r is Ok,
        decreases MAX_RUN_DEPTH - old(self).rdepth, 1int,
    {
        self.run_stop(start, pos, Some(end))
    }

    /// Run from `pc` at `pos` until `Match`, or until `stop` is reached.
    fn run_stop(&mut self, pc: usize, pos: usize, stop: Option<usize>) -> (r: Result<
        Option<usize>,
        Error,
    >)
        requires
            old(self).inv(),
            pos <= old(self).hay_end,
        ensures
            r matches Err(e) ==> run_error(e.kind),
            old(self).frame(&*final(self)),
            r matches Ok(Some(n)) ==> pos <= n <= old(self).hay_end,
            old(self).plain() && old(self).anchors_ok() ==> final(self).options == old(self).options && final(self).keep
                == old(self).keep && final(self).captures@.len() == old(self).captures@.len()
                && final(self).skip_to == old(self).skip_to && (r
                matches Ok(v) ==> same_end(
                v,
                old(self).plain_end(pc as int, pos as int, stop),
            )),
            old(self).rep_plain() && old(self).anchors_ok() ==> final(self).options == old(self).options && final(self).keep
                == old(self).keep && final(self).captures@.len() == old(self).captures@.len() && (r
                matches Ok(v) ==> same_end(
                v,
                old(self).plain_end(pc as int, pos as int, stop),
            )),
            old(self).plain() && pc <= old(self).prog.insts@.len() && old(self).unlimited_for(
                old(self).prog.insts@.len() - pc + 1,
            ) ==> r is Ok,
        decreases MAX_RUN_DEPTH - old(self).rdepth, 0int,
    {
        proof {
            if self.plain() {
                lemma_plain_rep_program(self.prog);
            }
        }
        if self.rdepth >= MAX_RUN_DEPTH {
            return Err(Error::kind_msg(ErrorKind::MatchStackLimit, "match recursion depth"));
        }
        self.rdepth = self.rdepth + 1;
        let r = self.run_stop_inner(pc, pos, stop);
        self.rdepth = self.rdepth - 1;
        r
    }

    fn run_stop_inner(&mut self, pc: usize, pos: usize, stop: Option<usize>) -> (r: Result<
        Option<usize>,
        Error,
    >)
        requires
            old(self).inv(),
            pos <= old(self).hay_end,
        ensures
            r matches Err(e) ==> run_error(e.kind),
            old(self).frame(&*final(self)),
            r matches Ok(Some(n)) ==> pos <= n <= old(self).hay_end,
            old(self).rep_plain() && old(self).anchors_ok() ==> final(self).options == old(self).options && final(self).keep
                == old(self).keep && final(self).captures@.len() == old(self).captures@.len() && (r
                matches Ok(v) ==> same_end(
                v,
                old(self).plain_end(pc as int, pos as int, stop),
            )),
            old(self).plain() && old(self).anchors_ok() ==> final(self).skip_to == old(self).skip_to,
            old(self).plain() && old(self).unlimited_for(old(self).prog.insts@.len() - pc) ==> r is Ok,
        decreases MAX_RUN_DEPTH - old(self).rdepth, 30int,
    {
        let prog: &'a Program = self.prog;
        let n_insts = prog.insts.len();
        let mut at = pc;
        let mut cur = pos;
        loop
            invariant
                old(self).frame(&*self),
                pos <= cur <= self.hay_end,
                prog == self.prog,
                n_insts == prog.insts@.len(),
                old(self).plain() && old(self).anchors_ok() ==> self.skip_to == old(self).skip_to,
                old(self).rep_plain() && old(self).anchors_ok() ==> self.options == old(self).options && self.keep
                    == old(self).keep && self.captures@.len() == old(self).captures@.len()
                    && old(self).plain_end(pc as int, pos as int, stop) == old(self).plain_end(
                    at as int,
                    cur as int,
                    stop,
                ),
                self.rdepth == old(self).rdepth,
                old(self).plain() && old(self).unlimited_for(n_insts - pc) ==> pc <= at
                    && self.retry_limit_in_match == 0 && self.retry_limit_in_search == 0,
            decreases n_insts - at,
        {
            if stop == Some(at) {
                return Ok(Some(cur));
            }
            if at >= n_insts {
                return Ok(None);
            }
            proof {
                assert(super::super::opcode::inst_forward(prog.insts@[at as int], at as int, n_insts as int));
                if old(self).plain() {
                    assert(plain_inst(prog.insts@[at as int]));
                }
                if old(self).rep_plain() {
                    assert(rep_inst_ok(prog, prog.insts@[at as int]));
                }
            }
            match &prog.insts[at] {
                Inst::Nop => at = at + 1,
                Inst::Match => return Ok(Some(cur)),
                Inst::Fail => return Ok(None),
                Inst::Char(c) => match self.consume_char(cur, *c) {
                    Some(n) => {
                        cur = n;
                        at = at + 1;
                    },
                    None => return Ok(None),
                },
                Inst::Literal(v) => match self.consume_literal(at, v, cur) {
                    Some(n) => {
                        cur = n;
                        at = at + 1;
                    },
                    None => return Ok(None),
                },
                Inst::Any { newline } => match self.consume_any(cur, *newline, false) {
                    Some(n) => {
                        cur = n;
                        at = at + 1;
                    },
                    None => return Ok(None),
                },
                Inst::SuperAny => match self.consume_any(cur, true, true) {
                    Some(n) => {
                        cur = n;
                        at = at + 1;
                    },
                    None => return Ok(None),
                },
                Inst::Class { class } => {
                    let plan = if at < prog.class_plans.len() {
                        prog.class_plans[at]
                    } else {
                        None
                    };
                    proof {
                        assert(plan_agrees(
                            prog.insts@[at as int],
                            prog.class_plans@[at as int],
                            self.enc,
                            self.user_props@,
                        ));
                    }
                    match self.consume_class(cur, class, plan) {
                        Some(n) => {
                            cur = n;
                            at = at + 1;
                        },
                        None => return Ok(None),
                    }
                },
                Inst::Split(a, b) => {
                    self.bump_retry()?;
                    let a = *a as usize;
                    let b = *b as usize;
                    let saved = self.save_caps();
                    match self.run_stop(a, cur, stop)? {
                        Some(r) => return Ok(Some(r)),
                        None => {},
                    }
                    self.restore_caps(saved);
                    at = b;
                },
                Inst::Jump(j) => at = *j as usize,
                Inst::Save(s) => {
                    let s = *s as usize;
                    if s < self.captures.len() {
                        self.captures.set(s, Some(cur));
                        if s % 2 == 1 {
                            let g = s / 2;
                            let recorded = g < prog.history_groups.len()
                                && prog.history_groups[g];
                            if recorded {
                                match self.captures[s - 1] {
                                    Some(st) => self.hist.push((g, st, cur)),
                                    None => {},
                                }
                            }
                        }
                    }
                    at = at + 1;
                },
                Inst::Assert(a) => {
                    if self.anchor(*a, cur) {
                        at = at + 1;
                    } else {
                        return Ok(None);
                    }
                },
                Inst::Repeat { body, after, min, max, greedy, possessive } => {
                    let ghost s0 = *self;
                    let r = self.repeat(
                        *body as usize,
                        *after as usize,
                        *min,
                        *max,
                        *greedy,
                        *possessive,
                        cur,
                        stop,
                    );
                    proof {
                        if old(self).rep_plain() && old(self).anchors_ok() {
                            s0.lemma_repeat_end(at as int, cur as int, stop);
                        }
                    }
                    return r;
                },
                Inst::Look { body, after, behind, negative } => {
                    let ok = self.look(*body as usize, *after as usize, *behind, cur)?;
                    if ok == *negative {
                        return Ok(None);
                    }
                    at = *after as usize;
                },
                Inst::Atomic { body, after } => {
                    match self.run_until(*body as usize, *after as usize, cur)? {
                        Some(n) => {
                            cur = n;
                            at = *after as usize;
                        },
                        None => return Ok(None),
                    }
                },
                Inst::Backref(b) => match self.backref(b, cur) {
                    Some(n) => {
                        cur = n;
                        at = at + 1;
                    },
                    None => return Ok(None),
                },
                Inst::Call(t) => {
                    self.calls = self.calls.saturating_add(1);
                    if self.subexp_call_limit != 0 && self.calls > self.subexp_call_limit {
                        return Err(Error::kind_msg(ErrorKind::SubexpCallLimit, "subexp-call limit"));
                    }
                    match self.subexp_call(t, cur, at)? {
                        Some(n) => {
                            cur = n;
                            at = at + 1;
                        },
                        None => return Ok(None),
                    }
                },
                Inst::Keep => {
                    self.keep = cur;
                    at = at + 1;
                },
                Inst::Absent { stopper, expr, after, kind } => {
                    // `absent` runs the continuation itself, so its result is
                    // final.
                    let e = match expr {
                        Some(e) => Some(*e as usize),
                        None => None,
                    };
                    return self.absent(*stopper as usize, e, *after as usize, *kind, cur, stop);
                },
                Inst::Cond { cond, then_pc, else_pc, after } => {
                    if self.cond_true(cond, cur)? {
                        at = *then_pc as usize;
                    } else {
                        at = match else_pc {
                            Some(e) => *e as usize,
                            None => *after as usize,
                        };
                    }
                },
                Inst::GeneralNewline => match self.consume_r(cur) {
                    Some(n) => {
                        cur = n;
                        at = at + 1;
                    },
                    None => return Ok(None),
                },
                Inst::TextSegment => match self.consume_x(cur) {
                    Some(n) => {
                        cur = n;
                        at = at + 1;
                    },
                    None => return Ok(None),
                },
                Inst::Callout { named, name, args, tag, body, dir } => {
                    if *named {
                        let nm = name.as_str();
                        // (*FAIL) / (*MISMATCH) fail where they stand.
                        if str_eq(nm, "FAIL") || str_eq(nm, "MISMATCH") {
                            return Ok(None);
                        }
                        // (*SKIP) succeeds going forward; it only records where
                        // it was reached.
                        if str_eq(nm, "SKIP") {
                            self.note_skip(cur);
                            at = at + 1;
                            continue;
                        }
                        if str_eq(nm, "COUNT") || str_eq(nm, "TOTAL_COUNT") {
                            self.count = self.count.saturating_add(1);
                            at = at + 1;
                            continue;
                        }
                        if str_eq(nm, "ERROR") {
                            return Err(Error::kind_msg(ErrorKind::InvalidArgument, "(*ERROR) callout"));
                        }
                    }
                    let t: Option<&str> = match tag {
                        Some(s) => Some(s.as_str()),
                        None => None,
                    };
                    let ctx = CalloutCtx {
                        name: name.as_str(),
                        args: args.as_str(),
                        tag: t,
                        body: body.as_str(),
                        haystack: self.hay,
                        current: cur,
                        dir: *dir,
                    };
                    let res = if *named {
                        self.hooks.named(&ctx)
                    } else if *dir == CalloutDir::Retraction {
                        self.hooks.retraction(&ctx)
                    } else {
                        self.hooks.progress(&ctx)
                    };
                    match res {
                        CalloutResult::Success => at = at + 1,
                        CalloutResult::Fail => return Ok(None),
                        CalloutResult::Skip => {
                            self.note_skip(cur);
                            at = at + 1;
                        },
                    }
                },
                Inst::PushOptions(set, clear) => {
                    self.option_stack.push(self.options);
                    self.options = self.options.union(*set).difference(*clear);
                    at = at + 1;
                },
                Inst::PopOptions => {
                    match self.option_stack.pop() {
                        Some(o) => self.options = o,
                        None => {},
                    }
                    at = at + 1;
                },
            }
        }
    }
}

impl<'a, H: Callouts> Engine<'a, H> {
    // -----------------------------------------------------------------------
    // Consumption
    // -----------------------------------------------------------------------

    /// The character at `pos`, read no further than `end`: its code point
    /// and length.
    fn char_at_in(&self, pos: usize, end: usize) -> (r: Option<(u32, usize)>)
        requires
            end <= self.hay@.len(),
            self.inv(),
        ensures
            r matches Some((c, n)) ==> n >= 1 && pos + n <= end,
            match r {
                Some((c, n)) => char_at_spec(self.enc, self.hay@, pos as int, end as int) == Some(
                    (c, n as nat),
                ),
                None => char_at_spec(self.enc, self.hay@, pos as int, end as int) is None,
            },
    {
        if pos >= end {
            return None;
        }
        let rest = &self.hay[pos..end];
        if self.ascii_fast && rest[0] < 0x80 {
            return Some((rest[0] as u32, 1));
        }
        let n = match self.enc.mbc_len(rest) {
            Ok(n) => if n > 0 && n <= rest.len() {
                n
            } else {
                return None;
            },
            Err(_) => return None,
        };
        match self.enc.decode_len(rest, n) {
            Ok(c) => Some((c, n)),
            Err(_) => None,
        }
    }

    fn char_at(&self, pos: usize) -> (r: Option<(u32, usize)>)
        requires
            self.inv(),
        ensures
            r matches Some((c, n)) ==> n >= 1 && pos + n <= self.hay_end,
            match r {
                Some((c, n)) => char_at_spec(self.enc, self.hay@, pos as int, self.hay_end as int)
                    == Some((c, n as nat)),
                None => char_at_spec(self.enc, self.hay@, pos as int, self.hay_end as int) is None,
            },
    {
        self.char_at_in(pos, self.hay_end)
    }

    /// The character that ends at `pos`.
    fn char_before(&self, pos: usize) -> (r: Option<u32>)
        requires
            self.inv(),
            pos <= self.hay@.len(),
        ensures
            r == char_before_spec(self.enc, self.hay@, pos as int),
    {
        if pos <= self.hay_start {
            return None;
        }
        if self.ascii_fast {
            let b = self.hay[pos - 1];
            if b < 0x80 {
                return Some(b as u32);
            }
        }
        let q = match self.enc.prev_char_start(self.hay, self.hay_start, pos) {
            Some(q) => q,
            None => return None,
        };
        let rest = &self.hay[q..pos];
        if self.enc.ascii_transparent() && rest.len() > 0 && rest[0] < 0x80 {
            return Some(rest[0] as u32);
        }
        match self.enc.decode_len(rest, rest.len()) {
            Ok(c) => Some(c),
            Err(_) => None,
        }
    }

    /// Step over the literal `v` of the instruction at `at`, from `cur`.
    fn consume_literal(&self, at: usize, v: &Vec<u32>, pos: usize) -> (r: Option<usize>)
        requires
            self.inv(),
            pos <= self.hay_end,
            at < self.prog.insts@.len(),
            self.prog.insts@[at as int] == Inst::Literal(*v),
        ensures
            r matches Some(n) ==> pos <= n <= self.hay_end,
            same_end(r, lit_step(self.enc, self.hay@, self.hay_end as int, self.options, pos as int, v@)),
    {
        let prog = self.prog;
        let mut cur = pos;
        let fast: Option<&Vec<u8>> = if self.options.contains(Options::ignorecase()) {
            None
        } else if at < prog.literal_bytes.len() {
            match &prog.literal_bytes[at] {
                Some(b) => Some(b),
                None => None,
            }
        } else {
            None
        };
        proof {
            assert(lit_bytes_at(
                prog.insts@[at as int],
                prog.literal_bytes@[at as int],
                self.enc,
            ));
            assert(fast matches Some(b) ==> compares_bytes(self.enc, self.options, v@)
                && b@ == ascii_lit(v@)->0);
            assert(fast is None ==> !compares_bytes(self.enc, self.options, v@));
        }
        match fast {
            Some(lit) => {
                // Compare bytes, rather than decode-and-compare per
                // character.
                if lit.len() > self.hay_end - cur {
                    return None;
                }
                let mut k: usize = 0;
                while k < lit.len()
                    invariant
                        self.inv(),
                        cur == pos,
                        compares_bytes(self.enc, self.options, v@),
                        lit@ == ascii_lit(v@)->0,
                        k <= lit@.len(),
                        cur + lit@.len() <= self.hay_end,
                        self.hay_end <= self.hay@.len(),
                        forall|j: int| 0 <= j < k ==> self.hay@[cur + j] == lit@[j],
                    decreases lit@.len() - k,
                {
                    if self.hay[cur + k] != lit[k] {
                        proof {
                            assert(self.hay@.subrange(cur as int, cur + lit@.len())[k as int]
                                != lit@[k as int]);
                        }
                        return None;
                    }
                    k = k + 1;
                }
                proof {
                    assert(self.hay@.subrange(cur as int, cur + lit@.len()) =~= lit@);
                }
                cur = cur + lit.len();
            },
            None => {
                let mut p = cur;
                let mut k: usize = 0;
                while k < v.len()
                    invariant
                        self.inv(),
                        cur == pos,
                        !compares_bytes(self.enc, self.options, v@),
                        cur <= p <= self.hay_end,
                        k <= v@.len(),
                        chars_step(
                            self.enc,
                            self.hay@,
                            self.hay_end as int,
                            self.options,
                            cur as int,
                            v@,
                            0,
                        ) == chars_step(
                            self.enc,
                            self.hay@,
                            self.hay_end as int,
                            self.options,
                            p as int,
                            v@,
                            k as int,
                        ),
                    decreases v@.len() - k,
                {
                    match self.consume_char(p, v[k]) {
                        Some(n) => p = n,
                        None => return None,
                    }
                    k = k + 1;
                }
                proof {
                    assert(chars_step(
                        self.enc,
                        self.hay@,
                        self.hay_end as int,
                        self.options,
                        p as int,
                        v@,
                        k as int,
                    ) == Some(p as int));
                }
                cur = p;
            },
        }

        Some(cur)
    }

    fn consume_char(&self, pos: usize, want: u32) -> (r: Option<usize>)
        requires
            self.inv(),
        ensures
            r matches Some(n) ==> pos < n <= self.hay_end,
            match r {
                Some(n) => char_step(
                    self.enc,
                    self.hay@,
                    self.hay_end as int,
                    self.options,
                    pos as int,
                    want,
                ) == Some(n as int),
                None => char_step(
                    self.enc,
                    self.hay@,
                    self.hay_end as int,
                    self.options,
                    pos as int,
                    want,
                ) is None,
            },
    {
        let (cp, n) = match self.char_at(pos) {
            Some(v) => v,
            None => return None,
        };
        if cp == want {
            return Some(pos + n);
        }
        let opt = self.options;
        if opt.contains(Options::ignorecase()) && fold_eq(
            want,
            cp,
            opt.contains(Options::ignorecase_is_ascii()),
        ) {
            return Some(pos + n);
        }
        None
    }

    fn consume_class(&self, pos: usize, cc: &CharClass, plan: Option<ClassPlan>) -> (r: Option<
        usize,
    >)
        requires
            self.inv(),
        ensures
            r matches Some(n) ==> pos < n <= self.hay_end,
            (plan matches Some(p) ==> forall|cp: u32|
                cp < 128 ==> #[trigger] plan_bit(p.ascii, cp) == class_spec(
                    *cc,
                    cp,
                    self.enc,
                    p.options,
                    self.user_props@,
                )) ==> match r {
                Some(n) => class_step(
                    self.enc,
                    self.hay@,
                    self.hay_end as int,
                    self.options,
                    self.user_props@,
                    pos as int,
                    *cc,
                ) == Some(n as int),
                None => class_step(
                    self.enc,
                    self.hay@,
                    self.hay_end as int,
                    self.options,
                    self.user_props@,
                    pos as int,
                    *cc,
                ) is None,
            },
    {
        if pos >= self.hay_end {
            return None;
        }
        let rest = &self.hay[pos..self.hay_end];
        let (n, cp) = if self.ascii_fast && rest[0] < 0x80 {
            (1usize, rest[0] as u32)
        } else {
            let n = match self.enc.mbc_len(rest) {
                Ok(n) => if n > 0 && n <= rest.len() {
                    n
                } else {
                    return None;
                },
                Err(_) => return None,
            };
            match self.enc.decode_len(rest, n) {
                Ok(c) => (n, c),
                Err(_) => return None,
            }
        };
        // Below U+0080 the precompiled bitmap answers at once.
        if cp < 0x80 && self.plans_ok {
            match plan {
                Some(p) => {
                    if p.options == self.options {
                        return if p.hit(cp) {
                            Some(pos + n)
                        } else {
                            None
                        };
                    }
                },
                None => {},
            }
        }
        if class_hit_in(cc, cp, self.enc, self.options, self.user_props) {
            Some(pos + n)
        } else {
            None
        }
    }

    fn consume_any(&self, pos: usize, newline_ok: bool, super_any: bool) -> (r: Option<usize>)
        requires
            self.inv(),
        ensures
            r matches Some(n) ==> pos < n <= self.hay_end,
            match r {
                Some(n) => any_step(
                    self.enc,
                    self.hay@,
                    self.hay_end as int,
                    pos as int,
                    newline_ok,
                    super_any,
                ) == Some(n as int),
                None => any_step(
                    self.enc,
                    self.hay@,
                    self.hay_end as int,
                    pos as int,
                    newline_ok,
                    super_any,
                ) is None,
            },
    {
        let (cp, n) = match self.char_at(pos) {
            Some(v) => v,
            None => return None,
        };
        if !super_any && !newline_ok && is_newline_cp(cp) {
            return None;
        }
        Some(pos + n)
    }

    /// `\R`: CRLF as one unit, or any single general newline.
    fn consume_r(&self, pos: usize) -> (r: Option<usize>)
        requires
            self.inv(),
        ensures
            r matches Some(n) ==> pos < n <= self.hay_end,
            match r {
                Some(n) => newline_end(self.enc, self.hay@, pos as int, self.hay_end as int) == Some(
                    n as int,
                ),
                None => newline_end(self.enc, self.hay@, pos as int, self.hay_end as int) is None,
            },
    {
        let (cp, n) = match self.char_at(pos) {
            Some(v) => v,
            None => return None,
        };
        if cp == 0x0d {
            match self.char_at(pos + n) {
                Some((c2, n2)) => {
                    if c2 == 0x0a {
                        return Some(pos + n + n2);
                    }
                },
                None => {},
            }
            return Some(pos + n);
        }
        if is_general_newline_cp(cp) {
            return Some(pos + n);
        }
        None
    }

    /// `\X`: one extended grapheme cluster, or one word segment under
    /// `TEXT_SEGMENT_WORD`.
    fn consume_x(&self, pos: usize) -> (r: Option<usize>)
        requires
            self.inv(),
        ensures
            r matches Some(n) ==> pos < n <= self.hay_end,
            match r {
                Some(n) => segment_end(self.enc, self.options, self.hay@, pos as int, self.hay_end as int)
                    == Some(n as int),
                None => segment_end(self.enc, self.options, self.hay@, pos as int, self.hay_end as int)
                    is None,
            },
    {
        let (first, n) = match self.char_at(pos) {
            Some(v) => v,
            None => return None,
        };
        let mut p = pos + n;
        let opt = self.options;
        if opt.contains(Options::text_segment_word()) {
            if unicode::is_word(self.enc, opt, first) {
                loop
                    invariant
                        pos < p <= self.hay_end,
                        self.inv(),
                        opt == self.options,
                        word_run_end(self.enc, opt, self.hay@, p as int, self.hay_end as int)
                            == word_run_end(self.enc, opt, self.hay@, pos + n, self.hay_end as int),
                    ensures
                        pos < p <= self.hay_end,
                        word_run_end(self.enc, opt, self.hay@, p as int, self.hay_end as int) == p,
                        word_run_end(self.enc, opt, self.hay@, p as int, self.hay_end as int)
                            == word_run_end(self.enc, opt, self.hay@, pos + n, self.hay_end as int),
                    decreases self.hay_end - p,
                {
                    match self.char_at(p) {
                        Some((c2, n2)) => {
                            if !unicode::is_word(self.enc, opt, c2) {
                                break;
                            }
                            p = p + n2;
                        },
                        None => break,
                    }
                }
            }
            return Some(p);
        }
        let mut prev = first;
        loop
            invariant
                pos < p <= self.hay_end,
                self.inv(),
                cluster_end(self.enc, self.hay@, prev, p as int, self.hay_end as int) == cluster_end(
                    self.enc,
                    self.hay@,
                    first,
                    pos + n,
                    self.hay_end as int,
                ),
            ensures
                pos < p <= self.hay_end,
                cluster_end(self.enc, self.hay@, prev, p as int, self.hay_end as int) == p,
                cluster_end(self.enc, self.hay@, prev, p as int, self.hay_end as int) == cluster_end(
                    self.enc,
                    self.hay@,
                    first,
                    pos + n,
                    self.hay_end as int,
                ),
            decreases self.hay_end - p,
        {
            match self.char_at(p) {
                Some((c2, n2)) => {
                    if grapheme_break(Some(prev), c2) {
                        break;
                    }
                    prev = c2;
                    p = p + n2;
                },
                None => break,
            }
        }
        Some(p)
    }

    // -----------------------------------------------------------------------
    // Anchors
    // -----------------------------------------------------------------------

    fn is_word_at(&self, pos: usize) -> (r: bool)
        requires
            self.inv(),
        ensures
            r == word_at_spec(self.enc, self.hay@, self.hay_end as int, self.options, pos as int),
    {
        match self.char_at(pos) {
            Some((c, _)) => unicode::is_word(self.enc, self.options, c),
            None => false,
        }
    }

    fn is_word_before(&self, pos: usize) -> (r: bool)
        requires
            self.inv(),
            pos <= self.hay@.len(),
        ensures
            r == word_before_spec(self.enc, self.hay@, self.options, pos as int),
    {
        match self.char_before(pos) {
            Some(c) => unicode::is_word(self.enc, self.options, c),
            None => false,
        }
    }

    fn is_text_seg_bound(&self, pos: usize) -> (r: bool)
        requires
            self.inv(),
            pos <= self.hay@.len(),
        ensures
            r == seg_bound_spec(self.enc, self.hay@, self.hay_end as int, pos as int),
    {
        if pos == self.hay_start || pos >= self.hay_end {
            return true;
        }
        let prev = self.char_before(pos);
        match self.char_at(pos) {
            Some((cur, _)) => grapheme_break(prev, cur),
            None => true,
        }
    }

    fn anchor(&self, a: Anchor, pos: usize) -> (r: bool)
        requires
            self.inv(),
            pos <= self.hay_end,
        ensures
            !(a is G) && self.anchors_ok() ==> r == anchor_spec(
                a,
                self.enc,
                self.hay@,
                self.hay_end as int,
                self.options,
                pos as int,
            ),
    {
        let opt = self.options;
        match a {
            Anchor::Bol => {
                // The search only offered line starts for this attempt --
                // except at the end, where a trailing newline begins no line.
                if self.bol_guaranteed && pos == self.attempt_start && !(pos >= self.hay_end && pos
                    > self.hay_start) {
                    return true;
                }
                if pos == self.hay_start {
                    !opt.contains(Options::notbol())
                } else if pos >= self.hay_end {
                    false
                } else {
                    match self.char_before(pos) {
                        Some(c) => is_newline_cp(c),
                        None => false,
                    }
                }
            },
            Anchor::Eol => {
                if pos >= self.hay_end {
                    !opt.contains(Options::noteol())
                } else {
                    match self.char_at(pos) {
                        Some((c, _)) => is_newline_cp(c),
                        None => false,
                    }
                }
            },
            Anchor::Bos => pos == self.hay_start && !opt.contains(Options::not_begin_string()),
            Anchor::Eos => pos >= self.hay_end && !opt.contains(Options::not_end_string()),
            Anchor::EosNl => {
                if pos >= self.hay_end {
                    !opt.contains(Options::not_end_string())
                } else {
                    match self.char_at(pos) {
                        Some((c, n)) => is_newline_cp(c) && pos + n >= self.hay_end,
                        None => false,
                    }
                }
            },
            Anchor::WordBound => self.is_word_before(pos) != self.is_word_at(pos),
            Anchor::NotWordBound => self.is_word_before(pos) == self.is_word_at(pos),
            Anchor::WordBegin => !self.is_word_before(pos) && self.is_word_at(pos),
            Anchor::WordEnd => self.is_word_before(pos) && !self.is_word_at(pos),
            Anchor::G => pos == self.search_origin && !opt.contains(Options::not_begin_position()),
            Anchor::TextSegBound => self.is_text_seg_bound(pos),
            Anchor::NotTextSegBound => !self.is_text_seg_bound(pos),
        }
    }

    // -----------------------------------------------------------------------
    // Backrefs, subexp calls, conditionals
    // -----------------------------------------------------------------------

    /// Haystack span of a captured group.
    fn group_span(&self, n: usize) -> (r: Option<(usize, usize)>)
        ensures
            r matches Some((a, b)) ==> a <= b <= self.hay@.len(),
            r == self.span_spec(n),
    {
        if n > usize::MAX / 2 - 1 {
            return None;
        }
        match (self.slot(n * 2), self.slot(n * 2 + 1)) {
            (Some(a), Some(b)) => if a <= b && b <= self.hay.len() {
                Some((a, b))
            } else {
                None
            },
            _ => None,
        }
    }

    /// The first group named `name`.
    fn name_index(&self, name: &str) -> (r: Option<usize>)
        ensures
            r == first_name(self.prog.names@, name@, 0),
    {
        let names = &self.prog.names;
        let mut i: usize = 0;
        while i < names.len()
            invariant
                i <= names@.len(),
                names == &self.prog.names,
                first_name(names@, name@, 0) == first_name(names@, name@, i as int),
            decreases names@.len() - i,
        {
            match &names[i] {
                Some(s) => {
                    if str_eq(s.as_str(), name) {
                        return Some(i);
                    }
                },
                None => {},
            }
            i = i + 1;
        }
        None
    }

    /// The group a back-reference names: negative numbers count back from
    /// the last group.
    fn group_index(&self, b: &Backref) -> (r: Option<usize>)
        ensures
            r == self.group_index_spec(*b),
    {
        let base: i32 = #[verifier::truncate] (self.prog.capture_count as i32);
        match b {
            Backref::Number(n) => {
                if *n < 0 {
                    let i = base.wrapping_add(*n);
                    if i > 0 {
                        Some(i as usize)
                    } else {
                        None
                    }
                } else {
                    Some(*n as usize)
                }
            },
            Backref::Name(name) => self.name_index(name.as_str()),
            Backref::Rel { back, n } => {
                let i = if *back {
                    base.wrapping_sub(*n)
                } else {
                    *n
                };
                if i > 0 {
                    Some(i as usize)
                } else {
                    None
                }
            },
        }
    }

    fn backref(&self, b: &Backref, pos: usize) -> (r: Option<usize>)
        requires
            self.inv(),
            pos <= self.hay_end,
        ensures
            r matches Some(n) ==> pos <= n <= self.hay_end,
            match r {
                Some(n) => self.backref_spec(*b, pos as int) == Some(n as int),
                None => self.backref_spec(*b, pos as int) is None,
            },
    {
        let idx = match self.group_index(b) {
            Some(i) => i,
            None => return None,
        };
        let (s, e) = match self.group_span(idx) {
            Some(v) => v,
            None => return None,
        };
        let len = e - s;
        if len > self.hay_end - pos {
            return None;
        }
        let opt = self.options;
        if opt.contains(Options::ignorecase()) {
            // Compare character by character under folding.
            let mut a = s;
            let mut b2 = pos;
            while a < e
                invariant
                    s <= a <= e,
                    e <= self.hay@.len(),
                    pos <= b2 <= self.hay_end,
                    self.inv(),
                    opt == self.options,
                    self.backref_spec(*b, pos as int) == fold_match_end(
                        self.enc,
                        self.hay@,
                        s as int,
                        e as int,
                        pos as int,
                        self.hay_end as int,
                        opt.has(Options::ignorecase_is_ascii_spec()),
                    ),
                    fold_match_end(
                        self.enc,
                        self.hay@,
                        a as int,
                        e as int,
                        b2 as int,
                        self.hay_end as int,
                        opt.has(Options::ignorecase_is_ascii_spec()),
                    ) == fold_match_end(
                        self.enc,
                        self.hay@,
                        s as int,
                        e as int,
                        pos as int,
                        self.hay_end as int,
                        opt.has(Options::ignorecase_is_ascii_spec()),
                    ),
                decreases e - a,
            {
                let (ca, na) = match self.char_at_in(a, e) {
                    Some(v) => v,
                    None => return None,
                };
                let (cb, nb) = match self.char_at(b2) {
                    Some(v) => v,
                    None => return None,
                };
                if !fold_eq(ca, cb, opt.contains(Options::ignorecase_is_ascii())) {
                    return None;
                }
                a = a + na;
                b2 = b2 + nb;
            }
            Some(b2)
        } else {
            let mut k: usize = 0;
            while k < len
                invariant
                    k <= len,
                    len == e - s,
                    e <= self.hay@.len(),
                    pos + len <= self.hay_end,
                    self.hay_end <= self.hay@.len(),
                    self.hay@.subrange(pos as int, pos + k) == self.hay@.subrange(s as int, s + k),
                    self.backref_spec(*b, pos as int) == (if self.hay@.subrange(pos as int, pos + len)
                        == self.hay@.subrange(s as int, e as int) {
                        Some(pos + len)
                    } else {
                        None::<int>
                    }),
                decreases len - k,
            {
                if self.hay[pos + k] != self.hay[s + k] {
                    proof {
                        assert(self.hay@.subrange(pos as int, pos + len)[k as int]
                            != self.hay@.subrange(s as int, e as int)[k as int]);
                    }
                    return None;
                }
                proof {
                    assert(self.hay@.subrange(pos as int, pos + k + 1) =~= self.hay@.subrange(
                        pos as int,
                        pos + k,
                    ).push(self.hay@[pos + k]));
                    assert(self.hay@.subrange(s as int, s + k + 1) =~= self.hay@.subrange(
                        s as int,
                        s + k,
                    ).push(self.hay@[s + k]));
                }
                k = k + 1;
            }
            Some(pos + len)
        }
    }

    fn subexp_call(&mut self, t: &CallTarget, pos: usize, call_pc: usize) -> (r: Result<
        Option<usize>,
        Error,
    >)
        requires
            old(self).inv(),
            pos <= old(self).hay_end,
        ensures
            r matches Err(e) ==> run_error(e.kind),
            old(self).frame(&*final(self)),
            r matches Ok(Some(n)) ==> pos <= n <= old(self).hay_end,
        decreases MAX_RUN_DEPTH - old(self).rdepth, 10int,
    {
        let idx: usize = match t {
            CallTarget::Whole => 0,
            CallTarget::Number(n) => {
                if *n < 0 {
                    let base: i32 = #[verifier::truncate] (self.prog.capture_count as i32);
                    let i = base.wrapping_add(*n);
                    if i < 0 {
                        return Ok(None);
                    }
                    i as usize
                } else {
                    *n as usize
                }
            },
            CallTarget::Name(n) => match self.name_index(n.as_str()) {
                Some(i) => i,
                None => 0,
            },
        };
        if idx == 0 {
            return self.run(0, pos);
        }
        let (open, close) = if idx < self.prog.group_spans.len() {
            match self.prog.group_spans[idx] {
                Some((a, b)) => (a as usize, b as usize),
                None => return Ok(None),
            }
        } else {
            return Ok(None);
        };
        // Run the group including its Save pair so the call writes the
        // capture -- unless the call sits inside the very group it calls:
        // there the outermost span is the one reported, so this group's slots
        // are put back on the way out.
        let recursive = call_pc > open && call_pc < close;
        let saved = if recursive && idx <= usize::MAX / 2 - 1 {
            Some((self.slot(idx * 2), self.slot(idx * 2 + 1)))
        } else {
            None
        };
        let r = self.run_until(open, close + 1, pos)?;
        if r.is_some() {
            match saved {
                Some((a, b)) => {
                    if idx * 2 < self.captures.len() {
                        self.captures.set(idx * 2, a);
                    }
                    if idx * 2 + 1 < self.captures.len() {
                        self.captures.set(idx * 2 + 1, b);
                    }
                },
                None => {},
            }
        }
        Ok(r)
    }

    fn cond_true(&mut self, cond: &CondTest, pos: usize) -> (r: Result<bool, Error>)
        requires
            old(self).inv(),
            pos <= old(self).hay_end,
        ensures
            r matches Err(e) ==> run_error(e.kind),
            old(self).frame(&*final(self)),
            match *cond {
                CondTest::Group(n) => r == Ok::<bool, Error>(old(self).span_spec(n) is Some),
                CondTest::Name(name) => r == Ok::<bool, Error>(match first_name(
                    old(self).prog.names@,
                    name@,
                    0,
                ) {
                    Some(i) => old(self).span_spec(i) is Some,
                    None => false,
                }),
                CondTest::ValidRef(b) => r == Ok::<bool, Error>(match old(self).group_index_spec(
                    b,
                ) {
                    Some(i) => old(self).span_spec(i) is Some,
                    None => false,
                }),
                CondTest::Look { .. } => true,
            },
        decreases MAX_RUN_DEPTH - old(self).rdepth, 18int,
    {
        match cond {
            CondTest::Group(n) => Ok(self.group_span(*n).is_some()),
            CondTest::Name(name) => match self.name_index(name.as_str()) {
                Some(i) => Ok(self.group_span(i).is_some()),
                None => Ok(false),
            },
            CondTest::ValidRef(b) => match self.group_index(b) {
                Some(i) => Ok(self.group_span(i).is_some()),
                None => Ok(false),
            },
            CondTest::Look { body, after } => self.look(*body as usize, *after as usize, false, pos),
        }
    }

    // -----------------------------------------------------------------------
    // Look-around
    // -----------------------------------------------------------------------

    /// Character-width range of the sub-program in `[start, end)`; `None`
    /// when it cannot tell, an upper bound of `None` when unbounded.
    fn width_range(&self, start: usize, end: usize, fuel: &mut u32) -> (r: Option<(u32, Option<u32>)>)
        ensures
            *final(fuel) <= *old(fuel),
        decreases *old(fuel),
    {
        let mut lo: u32 = 0;
        let mut hi: Option<u32> = Some(0);
        let mut pc = start;
        while pc < end
            invariant
                *fuel <= *old(fuel),
            decreases *fuel,
        {
            if *fuel == 0 {
                return None;
            }
            *fuel = *fuel - 1;
            if pc >= self.prog.insts.len() {
                return None;
            }
            match &self.prog.insts[pc] {
                Inst::Nop | Inst::Save(_) | Inst::Keep | Inst::Assert(_) | Inst::PushOptions(_, _)
                | Inst::PopOptions | Inst::Callout { .. } => pc = pc + 1,
                Inst::Char(_) | Inst::Class { .. } | Inst::Any { .. } | Inst::SuperAny
                | Inst::GeneralNewline | Inst::TextSegment => {
                    lo = lo.saturating_add(1);
                    hi = match hi {
                        Some(h) => Some(h.saturating_add(1)),
                        None => None,
                    };
                    pc = pc + 1;
                },
                Inst::Literal(v) => {
                    let n: u32 = #[verifier::truncate] (v.len() as u32);
                    lo = lo.saturating_add(n);
                    hi = match hi {
                        Some(h) => Some(h.saturating_add(n)),
                        None => None,
                    };
                    pc = pc + 1;
                },
                Inst::Look { after, .. } => pc = *after as usize,
                Inst::Jump(j) => {
                    let j = *j as usize;
                    // Only a forward jump is followed.
                    if j <= pc {
                        return None;
                    }
                    pc = j;
                },
                Inst::Split(a, b) => {
                    let wa = match self.width_range(*a as usize, end, fuel) {
                        Some(w) => w,
                        None => return None,
                    };
                    let wb = match self.width_range(*b as usize, end, fuel) {
                        Some(w) => w,
                        None => return None,
                    };
                    let alt_hi = match (wa.1, wb.1) {
                        (Some(x), Some(y)) => Some(if x > y { x } else { y }),
                        _ => None,
                    };
                    lo = lo.saturating_add(if wa.0 < wb.0 { wa.0 } else { wb.0 });
                    hi = match (hi, alt_hi) {
                        (Some(h), Some(x)) => Some(h.saturating_add(x)),
                        _ => None,
                    };
                    return Some((lo, hi));
                },
                Inst::Repeat { body, after, min, max, .. } => {
                    let w = match self.width_range(*body as usize, *after as usize, fuel) {
                        Some(w) => w,
                        None => return None,
                    };
                    lo = lo.saturating_add(sat_mul32(w.0, *min));
                    hi = match (hi, w.1, *max) {
                        (Some(h), Some(wh), Some(m)) => Some(h.saturating_add(sat_mul32(wh, m))),
                        _ => None,
                    };
                    pc = *after as usize;
                },
                // Backrefs, calls, conditionals, absent and atomic spans are
                // not modelled here.
                _ => return None,
            }
        }
        Some((lo, hi))
    }

    fn look(&mut self, body: usize, after: usize, behind: bool, pos: usize) -> (r: Result<
        bool,
        Error,
    >)
        requires
            old(self).inv(),
            pos <= old(self).hay_end,
        ensures
            r matches Err(e) ==> run_error(e.kind),
            old(self).frame(&*final(self)),
        decreases MAX_RUN_DEPTH - old(self).rdepth, 12int,
    {
        let saved = self.save_caps();
        let r = if behind {
            // Only start positions whose distance back from `pos` lies in the
            // body's width range can end at `pos`.
            let mut fuel: u32 = 512;
            let (min_w, max_w) = match self.width_range(body, after, &mut fuel) {
                Some((lo, hi)) => (lo, hi),
                None => (0, None),
            };
            let mut p = pos;
            let mut back: u32 = 0;
            let mut found = false;
            loop
                invariant
                    old(self).frame(&*self),
                    p <= pos,
                    pos <= self.hay_end,
                decreases p,
            {
                if back >= min_w {
                    match self.run_until(body, after, p)? {
                        Some(n) => {
                            if n == pos {
                                found = true;
                                break;
                            }
                        },
                        None => {},
                    }
                }
                let at_max = match max_w {
                    Some(m) => back >= m,
                    None => false,
                };
                if p == self.hay_start || at_max {
                    break;
                }
                match self.enc.prev_char_start(self.hay, self.hay_start, p) {
                    Some(q) => {
                        p = q;
                        back = back.saturating_add(1);
                    },
                    None => break,
                }
            }
            found
        } else {
            self.run_until(body, after, pos)?.is_some()
        };
        self.restore_caps(saved);
        Ok(r)
    }

    // -----------------------------------------------------------------------
    // Absent expressions
    // -----------------------------------------------------------------------

    fn absent(
        &mut self,
        stopper: usize,
        expr: Option<usize>,
        after: usize,
        kind: AbsentKind,
        pos: usize,
        stop: Option<usize>,
    ) -> (r: Result<Option<usize>, Error>)
        requires
            old(self).inv(),
            pos <= old(self).hay_end,
        ensures
            r matches Err(e) ==> run_error(e.kind),
            old(self).frame(&*final(self)),
            r matches Ok(Some(n)) ==> pos <= n <= old(self).hay_end,
        decreases MAX_RUN_DEPTH - old(self).rdepth, 20int,
    {
        let limit = self.find_absent_limit(stopper, after, pos)?;
        match kind {
            AbsentKind::Clear => self.run_stop(after, pos, stop),
            AbsentKind::Stopper => {
                let saved = self.hay_end;
                self.hay_end = match limit {
                    Some(l) => l,
                    None => self.hay_end,
                };
                let r = self.run_stop(after, pos, stop);
                self.hay_end = saved;
                r
            },
            // `(?~subexp)` is a repeater: it may match any span up to the
            // stopper, so it is tried longest-first with the continuation at
            // each length.
            AbsentKind::Repeater => {
                let end = match limit {
                    Some(l) => l,
                    None => self.hay_end,
                };
                let mut stops: Vec<usize> = Vec::new();
                stops.push(pos);
                let mut p = pos;
                while p < end
                    invariant
                        pos <= p <= end,
                        end <= self.hay_end,
                        self.inv(),
                        forall|k: int| 0 <= k < stops@.len() ==> pos <= #[trigger] stops@[k] <= end,
                    decreases end - p,
                {
                    match self.enc.mbc_len(&self.hay[p..end]) {
                        Ok(n) => {
                            if n > 0 && n <= end - p {
                                p = p + n;
                                stops.push(p);
                            } else {
                                break;
                            }
                        },
                        Err(_) => break,
                    }
                }
                loop
                    invariant
                        old(self).frame(&*self),
                        forall|k: int| 0 <= k < stops@.len() ==> pos <= #[trigger] stops@[k] <= old(self).hay_end,
                    decreases stops@.len(),
                {
                    let q = match stops.pop() {
                        Some(q) => q,
                        None => break,
                    };
                    self.bump_retry()?;
                    match self.run_stop(after, q, stop)? {
                        Some(r) => return Ok(Some(r)),
                        None => {},
                    }
                }
                Ok(None)
            },
            AbsentKind::Expression => {
                let saved = self.hay_end;
                self.hay_end = match limit {
                    Some(l) => l,
                    None => self.hay_end,
                };
                let start = match expr {
                    Some(e) => e,
                    None => after,
                };
                let inner = self.run_until(start, after, pos);
                self.hay_end = saved;
                match inner? {
                    Some(n) => self.run_stop(after, n, stop),
                    None => Ok(None),
                }
            },
        }
    }

    /// The first position from `pos` at which the stopper matches.
    fn find_absent_limit(&mut self, stopper: usize, after: usize, pos: usize) -> (r: Result<
        Option<usize>,
        Error,
    >)
        requires
            old(self).inv(),
            pos <= old(self).hay_end,
        ensures
            r matches Err(e) ==> run_error(e.kind),
            old(self).frame(&*final(self)),
            r matches Ok(Some(l)) ==> pos <= l <= old(self).hay_end,
        decreases MAX_RUN_DEPTH - old(self).rdepth, 15int,
    {
        let mut p = pos;
        while p <= self.hay_end
            invariant
                old(self).frame(&*self),
                pos <= p,
            decreases self.hay@.len() + 1 - p,
        {
            let saved = self.save_caps();
            let hit = self.run_until(stopper, after, p)?.is_some();
            self.restore_caps(saved);
            if hit {
                return Ok(Some(p));
            }
            if p == self.hay_end {
                break;
            }
            let n = next_pos(self.enc, self.hay, p);
            if n <= p || n > self.hay_end {
                break;
            }
            p = n;
        }
        Ok(None)
    }
}

impl<'a, H: Callouts> Engine<'a, H> {
    // -----------------------------------------------------------------------
    // Repetition
    // -----------------------------------------------------------------------

    fn repeat(
        &mut self,
        body: usize,
        after: usize,
        min: u32,
        max: Option<u32>,
        greedy: bool,
        possessive: bool,
        pos: usize,
        stop: Option<usize>,
    ) -> (r: Result<Option<usize>, Error>)
        requires
            old(self).inv(),
            pos <= old(self).hay_end,
        ensures
            r matches Err(e) ==> run_error(e.kind),
            old(self).frame(&*final(self)),
            r matches Ok(Some(n)) ==> pos <= n <= old(self).hay_end,
            old(self).rep_plain() && old(self).anchors_ok() && rep_shape_ok(
                old(self).prog,
                body as int,
                after as int,
                greedy,
                possessive,
            ) ==> final(self).options == old(self).options && final(self).keep == old(self).keep
                && final(self).captures@.len() == old(self).captures@.len() && (r matches Ok(v)
                ==> same_end(
                v,
                rep_end(
                    old(self).body_fn(body as int, after as int),
                    old(self).rest_fn(after as int, stop),
                    min,
                    max,
                    greedy,
                    possessive,
                    pos as int,
                    old(self).hay_end as int,
                ),
            )),
        decreases MAX_RUN_DEPTH - old(self).rdepth, 20int,
    {
        let shape = if body < self.prog.repeat_shapes.len() {
            self.prog.repeat_shapes[body]
        } else {
            default_shape()
        };
        let writes = shape.writes_caps;
        let ghost on = old(self).rep_plain() && old(self).anchors_ok() && rep_shape_ok(
            old(self).prog,
            body as int,
            after as int,
            greedy,
            possessive,
        );
        if !writes && !possessive {
            match shape.simple {
                SimpleBody::Char(want) => {
                    proof {
                        if on {
                            assert(body < old(self).prog.repeat_shapes@.len());
                            assert(old(self).prog.insts@[body as int] == Inst::Char(want));
                            old(self).lemma_one_body(body as int, after as int);
                            assert forall|p: int| #[trigger] old(self).body_fn(body as int, after as int)(p) == old(self).char_fn(
                                    want,
                                )(p) by {
                                assert(old(self).body_fn(body as int, after as int)(p) == first_end(
                                    old(self).prog.insts@,
                                    old(self).enc,
                                    old(self).hay@,
                                    old(self).hay_end as int,
                                    old(self).options,
                                    old(self).user_props@,
                                    body as int,
                                    p,
                                    Some(after),
                                ));
                            }
                            assert(old(self).body_fn(body as int, after as int) =~= old(
                                self,
                            ).char_fn(want));
                        }
                    }
                    return self.repeat_simple_char(want, after, min, max, greedy, pos, stop);
                },
                SimpleBody::Class(cpc) => {
                    proof {
                        if on {
                            assert(body < old(self).prog.repeat_shapes@.len());
                            assert(cpc as usize == body);
                            assert(old(self).prog.insts@[body as int] is Class);
                            old(self).lemma_one_body(body as int, after as int);
                            assert forall|p: int| #[trigger] old(self).body_fn(body as int, after as int)(p) == old(self).class_fn(
                                    old(self).prog.insts@[body as int]->Class_class,
                                )(p) by {
                                assert(old(self).body_fn(body as int, after as int)(p) == first_end(
                                    old(self).prog.insts@,
                                    old(self).enc,
                                    old(self).hay@,
                                    old(self).hay_end as int,
                                    old(self).options,
                                    old(self).user_props@,
                                    body as int,
                                    p,
                                    Some(after),
                                ));
                            }
                            assert(old(self).body_fn(body as int, after as int) =~= old(
                                self,
                            ).class_fn(old(self).prog.insts@[body as int]->Class_class));
                        }
                    }
                    return self.repeat_simple_class(
                        cpc as usize,
                        after,
                        min,
                        max,
                        greedy,
                        pos,
                        stop,
                    );
                },
                SimpleBody::Complex => {},
            }
        }
        self.repeat_rec(body, after, min, max, greedy, possessive, pos, writes, stop)
    }

    fn repeat_simple_char(
        &mut self,
        want: u32,
        after: usize,
        min: u32,
        max: Option<u32>,
        greedy: bool,
        pos: usize,
        stop: Option<usize>,
    ) -> (r: Result<Option<usize>, Error>)
        requires
            old(self).inv(),
            pos <= old(self).hay_end,
        ensures
            r matches Err(e) ==> run_error(e.kind),
            old(self).frame(&*final(self)),
            r matches Ok(Some(n)) ==> pos <= n <= old(self).hay_end,
            old(self).rep_plain() && old(self).anchors_ok() ==> old(self).keeps(&*final(self)) && (r
                matches Ok(v) ==> same_end(
                v,
                rep_end(
                    old(self).char_fn(want),
                    old(self).rest_fn(after as int, stop),
                    min,
                    max,
                    greedy,
                    false,
                    pos as int,
                    old(self).hay_end as int,
                ),
            )),
        decreases MAX_RUN_DEPTH - old(self).rdepth, 15int,
    {
        if want <= 0x7F && !self.options.contains(Options::ignorecase()) && self.enc_min_len == 1 {
            proof {
                assert(old(self).char_fn((want as u8) as u32) == old(self).char_fn(want));
            }
            return self.repeat_ascii_run(want as u8, after, min, max, greedy, pos, stop);
        }
        let cap = match max {
            Some(m) => m,
            None => u32::MAX,
        };
        let ghost on = old(self).rep_plain() && old(self).anchors_ok();
        let ghost cf = old(self).char_fn(want);
        let ghost e = old(self).hay_end as int;
        let ghost t = rep_trail(cf, min as int, cap as int, e, pos as int, 0);
        let mut ends: Vec<usize> = Vec::new();
        ends.push(pos);
        let mut p = pos;
        let mut c: u32 = 0;
        proof {
            assert(as_ints(ends@) =~= seq![pos as int]);
            assert(t[0] == pos);
            assert(as_ints(ends@) + t.drop_first() =~= t);
        }
        while c < cap
            invariant
                old(self).frame(&*self),
                pos <= p <= self.hay_end,
                ends@.len() == c + 1,
                forall|k: int| 0 <= k < ends@.len() ==> pos <= #[trigger] ends@[k] <= self.hay_end,
                on == (old(self).rep_plain() && old(self).anchors_ok()),
                cf == old(self).char_fn(want),
                e == old(self).hay_end as int,
                t == rep_trail(cf, min as int, cap as int, e, pos as int, 0),
                on ==> old(self).keeps(&*self) && as_ints(ends@) + rep_trail(
                    cf,
                    min as int,
                    cap as int,
                    e,
                    p as int,
                    c as int,
                ).drop_first() == t,
            ensures
                old(self).frame(&*self),
                ends@.len() == c + 1,
                forall|k: int| 0 <= k < ends@.len() ==> pos <= #[trigger] ends@[k] <= self.hay_end,
                on ==> old(self).keeps(&*self) && as_ints(ends@) == t,
            decreases self.hay_end - p,
        {
            match self.consume_char(p, want) {
                Some(n) => {
                    if n == p {
                        break;
                    }
                    proof {
                        if on {
                            let r0 = rep_trail(cf, min as int, cap as int, e, p as int, c as int);
                            let r1 = rep_trail(cf, min as int, cap as int, e, n as int, c + 1);
                            assert(cf(p as int) == Some(n as int));
                            assert(r0 == seq![p as int] + r1);
                            assert(r1[0] == n);
                            assert(r0.drop_first() =~= r1);
                            assert(as_ints(ends@.push(n)) =~= as_ints(ends@).push(n as int));
                            assert(as_ints(ends@).push(n as int) + r1.drop_first() =~= as_ints(ends@)
                                + r1);
                        }
                    }
                    p = n;
                    c = c + 1;
                    ends.push(p);
                    // `c` counts repetitions; `ends` also holds the
                    // zero-repetition entry.
                    self.check_repeat_depth(c as usize)?;
                },
                None => {
                    proof {
                        if on {
                            let r0 = rep_trail(cf, min as int, cap as int, e, p as int, c as int);
                            assert(r0 == seq![p as int]);
                            assert(r0.drop_first() =~= Seq::<int>::empty());
                            assert(as_ints(ends@) + r0.drop_first() =~= as_ints(ends@));
                        }
                    }
                    break;
                },
            }
        }
        proof {
            if on {
                assert(t.len() == c + 1);
            }
        }
        if c < min {
            return Ok(None);
        }
        self.bump_retry_n(c as u64)?;
        self.try_lengths(&ends, after, min, c, greedy, stop, Ghost(pos))
    }

    fn repeat_ascii_run(
        &mut self,
        want: u8,
        after: usize,
        min: u32,
        max: Option<u32>,
        greedy: bool,
        pos: usize,
        stop: Option<usize>,
    ) -> (r: Result<Option<usize>, Error>)
        requires
            old(self).inv(),
            pos <= old(self).hay_end,
        ensures
            r matches Err(e) ==> run_error(e.kind),
            old(self).frame(&*final(self)),
            r matches Ok(Some(n)) ==> pos <= n <= old(self).hay_end,
            old(self).rep_plain() && old(self).anchors_ok() && want < 0x80 && old(self).enc_min_len
                == 1 && !old(self).options.has(Options::ignorecase_spec()) ==> old(self).keeps(
                &*final(self),
            ) && (r matches Ok(v) ==> same_end(
                v,
                rep_end(
                    old(self).char_fn(want as u32),
                    old(self).rest_fn(after as int, stop),
                    min,
                    max,
                    greedy,
                    false,
                    pos as int,
                    old(self).hay_end as int,
                ),
            )),
        decreases MAX_RUN_DEPTH - old(self).rdepth, 10int,
    {
        let cap = match max {
            Some(m) => m,
            None => u32::MAX,
        };
        let ghost on = old(self).rep_plain() && old(self).anchors_ok() && want < 0x80
            && old(self).enc_min_len == 1 && !old(self).options.has(Options::ignorecase_spec());
        let ghost cf = old(self).char_fn(want as u32);
        let ghost e = old(self).hay_end as int;
        let ghost t = rep_trail(cf, min as int, cap as int, e, pos as int, 0);
        let mut end = pos;
        let mut c: u32 = 0;
        proof {
            assert(t[0] == pos);
            assert(steps_from(pos as int, 0) + t.drop_first() =~= t);
        }
        while end < self.hay_end && c < cap && self.hay[end] == want
            invariant
                old(self).frame(&*self),
                pos <= end <= self.hay_end,
                end == pos + c,
                c <= cap,
                on == (old(self).rep_plain() && old(self).anchors_ok() && want < 0x80
                    && old(self).enc_min_len == 1 && !old(self).options.has(Options::ignorecase_spec())),
                cf == old(self).char_fn(want as u32),
                e == old(self).hay_end as int,
                t == rep_trail(cf, min as int, cap as int, e, pos as int, 0),
                on ==> steps_from(pos as int, c as int) + rep_trail(
                    cf,
                    min as int,
                    cap as int,
                    e,
                    end as int,
                    c as int,
                ).drop_first() == t,
            decreases self.hay_end - end,
        {
            proof {
                if on {
                    lemma_ascii_char_step(
                        self.enc,
                        self.hay@,
                        e,
                        self.options,
                        end as int,
                        want as u32,
                    );
                    let r0 = rep_trail(cf, min as int, cap as int, e, end as int, c as int);
                    let r1 = rep_trail(cf, min as int, cap as int, e, end + 1, c + 1);
                    assert(cf(end as int) == Some(end + 1));
                    assert(r0 == seq![end as int] + r1);
                    assert(r1[0] == end + 1);
                    assert(r0.drop_first() =~= r1);
                    assert(steps_from(pos as int, c + 1) =~= steps_from(pos as int, c as int).push(
                        end + 1,
                    ));
                    assert(steps_from(pos as int, c + 1) + r1.drop_first() =~= steps_from(
                        pos as int,
                        c as int,
                    ) + r1);
                }
            }
            end = end + 1;
            c = c + 1;
        }
        proof {
            if on {
                lemma_ascii_char_step(self.enc, self.hay@, e, self.options, end as int, want as u32);
                let r0 = rep_trail(cf, min as int, cap as int, e, end as int, c as int);
                assert(r0 == seq![end as int]);
                assert(steps_from(pos as int, c as int) + r0.drop_first() =~= steps_from(
                    pos as int,
                    c as int,
                ));
                assert(t.len() == c + 1);
            }
        }
        if c < min {
            return Ok(None);
        }
        self.bump_retry_n(c as u64)?;
        self.check_repeat_depth(c as usize)?;
        // Positions are pos + k: no trail needed.
        self.try_run_counts(after, min, c, greedy, stop, pos)
    }

    /// The continuation at `pos + k` for each admissible count `k`, longest
    /// first when greedy, shortest first when lazy.
    fn try_run_counts(
        &mut self,
        after: usize,
        min: u32,
        count: u32,
        greedy: bool,
        stop: Option<usize>,
        pos: usize,
    ) -> (r: Result<Option<usize>, Error>)
        requires
            old(self).inv(),
            min <= count,
            pos + count <= old(self).hay_end,
        ensures
            r matches Err(e) ==> run_error(e.kind),
            old(self).frame(&*final(self)),
            r matches Ok(Some(n)) ==> pos <= n <= old(self).hay_end,
            old(self).rep_plain() && old(self).anchors_ok() ==> old(self).keeps(&*final(self)) && (r
                matches Ok(v) ==> same_end(
                v,
                picked(
                    steps_from(pos as int, count as int),
                    old(self).rest_fn(after as int, stop),
                    min as int,
                    greedy,
                ),
            )),
        decreases MAX_RUN_DEPTH - old(self).rdepth, 5int,
    {
        let ghost t = steps_from(pos as int, count as int);
        let ghost rf = old(self).rest_fn(after as int, stop);
        let ghost on = old(self).rep_plain() && old(self).anchors_ok();
        if greedy {
            let mut k = count;
            loop
                invariant
                    old(self).frame(&*self),
                    min <= k <= count,
                    pos + count <= self.hay_end,
                    greedy,
                    t == steps_from(pos as int, count as int),
                    rf == old(self).rest_fn(after as int, stop),
                    on == (old(self).rep_plain() && old(self).anchors_ok()),
                    on ==> old(self).keeps(&*self) && pick_down(t, rf, min as int, count as int)
                        == pick_down(t, rf, min as int, k as int),
                decreases k,
            {
                let ghost k0 = k as int;
                let res = self.run_stop(after, pos + k as usize, stop)?;
                proof {
                    assert(t[k0] == pos + k0);
                }
                match res {
                    Some(r) => {
                        return Ok(Some(r));
                    },
                    None => {},
                }
                if k == min {
                    proof {
                        assert(pick_down(t, rf, min as int, k0 - 1) is None);
                    }
                    return Ok(None);
                }
                k = k - 1;
            }
        } else {
            let mut k = min;
            loop
                invariant
                    old(self).frame(&*self),
                    min <= k <= count,
                    pos + count <= self.hay_end,
                    !greedy,
                    t == steps_from(pos as int, count as int),
                    rf == old(self).rest_fn(after as int, stop),
                    on == (old(self).rep_plain() && old(self).anchors_ok()),
                    on ==> old(self).keeps(&*self) && pick_up(t, rf, min as int) == pick_up(
                        t,
                        rf,
                        k as int,
                    ),
                decreases count - k,
            {
                let ghost k0 = k as int;
                let res = self.run_stop(after, pos + k as usize, stop)?;
                proof {
                    assert(t[k0] == pos + k0);
                }
                match res {
                    Some(r) => return Ok(Some(r)),
                    None => {},
                }
                if k == count {
                    proof {
                        assert(pick_up(t, rf, k0 + 1) is None);
                    }
                    return Ok(None);
                }
                k = k + 1;
            }
        }
    }

    #[verifier::spinoff_prover]
    #[verifier::rlimit(40)]
    fn repeat_simple_class(
        &mut self,
        class_pc: usize,
        after: usize,
        min: u32,
        max: Option<u32>,
        greedy: bool,
        pos: usize,
        stop: Option<usize>,
    ) -> (r: Result<Option<usize>, Error>)
        requires
            old(self).inv(),
            pos <= old(self).hay_end,
        ensures
            r matches Err(e) ==> run_error(e.kind),
            old(self).frame(&*final(self)),
            r matches Ok(Some(n)) ==> pos <= n <= old(self).hay_end,
            old(self).rep_plain() && old(self).anchors_ok() && class_pc < old(
                self,
            ).prog.insts@.len() && old(self).prog.insts@[class_pc as int] is Class && class_follow_ok(
                old(self).prog,
                class_pc as int,
                after as int,
                greedy,
            ) ==> old(self).keeps(
                &*final(self),
            ) && (r matches Ok(v) ==> same_end(
                v,
                rep_end(
                    old(self).class_fn(old(self).prog.insts@[class_pc as int]->Class_class),
                    old(self).rest_fn(after as int, stop),
                    min,
                    max,
                    greedy,
                    false,
                    pos as int,
                    old(self).hay_end as int,
                ),
            )),
        decreases MAX_RUN_DEPTH - old(self).rdepth, 15int,
    {
        let prog: &'a Program = self.prog;
        if class_pc >= prog.insts.len() {
            return Ok(None);
        }
        let class = match &prog.insts[class_pc] {
            Inst::Class { class } => class,
            _ => return Ok(None),
        };
        let plan = if class_pc < prog.class_plans.len() {
            prog.class_plans[class_pc]
        } else {
            None
        };
        proof {
            assert(plan_agrees(
                prog.insts@[class_pc as int],
                prog.class_plans@[class_pc as int],
                self.enc,
                self.user_props@,
            ));
        }
        let cap = match max {
            Some(m) => m,
            None => u32::MAX,
        };
        let plan_ok = self.plans_ok && self.ascii_fast && match plan {
            Some(pl) => pl.options == self.options,
            None => false,
        };
        let shape = if class_pc < prog.repeat_shapes.len() {
            prog.repeat_shapes[class_pc]
        } else {
            default_shape()
        };
        let only_max = greedy && shape.follow_disjoint;
        let follow = if greedy && !shape.follow_disjoint {
            shape.follow_byte
        } else {
            None
        };
        let ghost on = old(self).rep_plain() && old(self).anchors_ok() && class_follow_ok(
            old(self).prog,
            class_pc as int,
            after as int,
            greedy,
        );
        let ghost cf = old(self).class_fn(*class);
        let ghost e = old(self).hay_end as int;
        let ghost t = rep_trail(cf, min as int, cap as int, e, pos as int, 0);
        proof {
            assert(t[0] == pos);
        }

        // Fast path: while the run is ASCII, membership is one bitmap test and
        // the k-th end position is `pos + k`.
        if plan_ok {
            let pl = match plan {
                Some(pl) => pl,
                None => return Ok(None),
            };
            let hay_end = self.hay_end;
            let mut p = pos;
            let mut c: u32 = 0;
            proof {
                assert(steps_from(pos as int, 0) + t.drop_first() =~= t);
            }
            while c < cap && p < hay_end
                invariant
                    old(self).frame(&*self),
                    hay_end == self.hay_end,
                    pos <= p <= hay_end,
                    p == pos + c,
                    c <= cap,
                    self.ascii_fast,
                    pl.options == self.options,
                    plan == Some(pl),
                    plan_agrees(
                        self.prog.insts@[class_pc as int],
                        plan,
                        self.enc,
                        self.user_props@,
                    ),
                    class_pc < self.prog.insts@.len(),
                    self.prog.insts@[class_pc as int] == (Inst::Class { class: *class }),
                    on == (old(self).rep_plain() && old(self).anchors_ok() && class_follow_ok(
                        old(self).prog,
                        class_pc as int,
                        after as int,
                        greedy,
                    )),
                    cf == old(self).class_fn(*class),
                    e == old(self).hay_end as int,
                    t == rep_trail(cf, min as int, cap as int, e, pos as int, 0),
                    forall|q: int| pos <= q < p ==> #[trigger] run_hit(self.hay@, pl.ascii, q),
                    on ==> old(self).keeps(&*self) && steps_from(pos as int, c as int) + rep_trail(
                        cf,
                        min as int,
                        cap as int,
                        e,
                        p as int,
                        c as int,
                    ).drop_first() == t,
                ensures
                    old(self).frame(&*self),
                    pos <= p <= hay_end,
                    p == pos + c,
                    forall|q: int| pos <= q < p ==> #[trigger] run_hit(self.hay@, pl.ascii, q),
                    on ==> old(self).keeps(&*self),
                    on && (p >= hay_end || self.hay@[p as int] < 0x80) ==> steps_from(
                        pos as int,
                        c as int,
                    ) == t,
                decreases hay_end - p,
            {
                let b = self.hay[p];
                if b >= 0x80 {
                    break;
                }
                let hit = pl.hit(b as u32);
                proof {
                    if on {
                        lemma_ascii_byte_char(self.enc, self.hay@, p as int, e);
                        assert(cf(p as int) == class_step(
                            self.enc,
                            self.hay@,
                            e,
                            self.options,
                            self.user_props@,
                            p as int,
                            *class,
                        ));
                        lemma_plan_bit(
                            Inst::Class { class: *class },
                            Some(pl),
                            self.enc,
                            self.user_props@,
                            b as u32,
                        );
                        assert(plan_bit(pl.ascii, b as u32) == class_spec(
                            *class,
                            b as u32,
                            self.enc,
                            pl.options,
                            self.user_props@,
                        ));
                        let r0 = rep_trail(cf, min as int, cap as int, e, p as int, c as int);
                        if hit {
                            let r1 = rep_trail(cf, min as int, cap as int, e, p + 1, c + 1);
                            assert(cf(p as int) == Some(p + 1));
                            assert(r0 == seq![p as int] + r1);
                            assert(r1[0] == p + 1);
                            assert(r0.drop_first() =~= r1);
                            assert(steps_from(pos as int, c + 1) =~= steps_from(
                                pos as int,
                                c as int,
                            ).push(p + 1));
                            assert(steps_from(pos as int, c + 1) + r1.drop_first() =~= steps_from(
                                pos as int,
                                c as int,
                            ) + r1);
                        } else {
                            assert(cf(p as int) is None);
                            assert(r0 == seq![p as int]);
                            assert(steps_from(pos as int, c as int) + r0.drop_first() =~= steps_from(
                                pos as int,
                                c as int,
                            ));
                        }
                    }
                }
                if !hit {
                    break;
                }
                proof {
                    assert(run_hit(self.hay@, pl.ascii, p as int));
                }
                p = p + 1;
                c = c + 1;
            }
            proof {
                if on && (c >= cap || p >= hay_end) {
                    let r0 = rep_trail(cf, min as int, cap as int, e, p as int, c as int);
                    assert(r0 == seq![p as int]);
                    assert(steps_from(pos as int, c as int) + r0.drop_first() =~= steps_from(
                        pos as int,
                        c as int,
                    ));
                }
            }
            // The run stayed ASCII to the end of what the class admits.
            if p >= hay_end || self.hay[p] < 0x80 {
                proof {
                    if on {
                        assert(t.len() == c + 1);
                    }
                }
                if c < min {
                    return Ok(None);
                }
                self.bump_retry_n(c as u64)?;
                self.check_repeat_depth(c as usize)?;
                let ghost insts = self.prog.insts@;
                let ghost rf = old(self).rest_fn(after as int, stop);
                let ghost opts = self.options;
                let ghost props = self.user_props@;
                if only_max {
                    // Every shorter length would put a class member where the
                    // following character must go.
                    let res = self.run_stop(after, pos + c as usize, stop);
                    proof {
                        if on && res matches Ok(None) {
                            assert(class_pc < self.prog.repeat_shapes@.len());
                            assert(follow_disjoint_ok(self.prog, class_pc as int, after as int));
                            let (fpc, fc) = choose|fpc: int, fc: u32|
                                passes_to(insts, after as int, fpc) && 0 <= fpc < insts.len()
                                    && #[trigger] reads_first(insts[fpc], fc) && !plan_bit(
                                    pl.ascii,
                                    fc,
                                );
                            lemma_follow_skip(
                                insts,
                                self.enc,
                                self.hay@,
                                e,
                                opts,
                                props,
                                after as int,
                                fpc,
                                stop,
                                fc,
                                pl.ascii,
                                pos as int,
                                pos + c,
                            );
                            assert forall|j: int| min <= j <= c && 0 <= j < t.len() implies #[trigger] rf(
                                t[j],
                            ) is None by {
                                assert(t[j] == pos + j);
                                assert(rf(t[j]) == first_end(
                                    insts,
                                    self.enc,
                                    self.hay@,
                                    e,
                                    opts,
                                    props,
                                    after as int,
                                    pos + j,
                                    stop,
                                ));
                            }
                            lemma_pick_down_none(t, rf, min as int, c as int);
                        }
                    }
                    return res;
                }
                match follow {
                    Some(fb) => {
                        // Only lengths that leave the required byte in place
                        // can succeed.
                        match self.run_stop(after, pos + c as usize, stop)? {
                            Some(r) => return Ok(Some(r)),
                            None => {},
                        }
                        proof {
                            if on {
                                assert(class_pc < self.prog.repeat_shapes@.len());
                                assert(follow_byte_ok(
                                    self.prog,
                                    class_pc as int,
                                    after as int,
                                    fb,
                                    shape.follow_icase,
                                ));
                                let fpc = choose|fpc: int|
                                    passes_to(insts, after as int, fpc) && 0 <= fpc < insts.len()
                                        && #[trigger] reads_first(insts[fpc], fb as u32);
                                lemma_follow_skip(
                                    insts,
                                    self.enc,
                                    self.hay@,
                                    e,
                                    opts,
                                    props,
                                    after as int,
                                    fpc,
                                    stop,
                                    fb as u32,
                                    pl.ascii,
                                    pos as int,
                                    pos + c,
                                );
                                assert(rf(pos + c) is None);
                            }
                        }
                        let ghost s1 = *self;
                        let res = self.try_follow_lengths(after, min, c, pos, fb, shape.follow_icase, stop);
                        proof {
                            if on {
                                assert(s1.rest_fn(after as int, stop) == rf);
                                assert(pick_down(t, rf, min as int, c as int) == pick_down(
                                    t,
                                    rf,
                                    min as int,
                                    c - 1,
                                ));
                            }
                        }
                        return res;
                    },
                    None => {},
                }
                return self.try_run_counts(after, min, c, greedy, stop, pos);
            }
            // A multi-byte character is in reach; the general path below
            // re-walks from `pos` and handles variable widths.
        }
        let mut ends: Vec<usize> = Vec::new();
        ends.push(pos);
        let mut p = pos;
        let mut c: u32 = 0;
        proof {
            assert(as_ints(ends@) =~= seq![pos as int]);
            assert(as_ints(ends@) + t.drop_first() =~= t);
        }
        while c < cap
            invariant
                old(self).frame(&*self),
                pos <= p <= self.hay_end,
                ends@.len() == c + 1,
                forall|k: int| 0 <= k < ends@.len() ==> pos <= #[trigger] ends@[k] <= self.hay_end,
                plan_agrees(self.prog.insts@[class_pc as int], plan, self.enc, self.user_props@),
                class_pc < self.prog.insts@.len(),
                self.prog.insts@[class_pc as int] == (Inst::Class { class: *class }),
                on == (old(self).rep_plain() && old(self).anchors_ok() && class_follow_ok(
                    old(self).prog,
                    class_pc as int,
                    after as int,
                    greedy,
                )),
                cf == old(self).class_fn(*class),
                e == old(self).hay_end as int,
                t == rep_trail(cf, min as int, cap as int, e, pos as int, 0),
                on ==> old(self).keeps(&*self) && as_ints(ends@) + rep_trail(
                    cf,
                    min as int,
                    cap as int,
                    e,
                    p as int,
                    c as int,
                ).drop_first() == t,
            ensures
                old(self).frame(&*self),
                ends@.len() == c + 1,
                forall|k: int| 0 <= k < ends@.len() ==> pos <= #[trigger] ends@[k] <= self.hay_end,
                on ==> old(self).keeps(&*self) && as_ints(ends@) == t,
            decreases self.hay_end - p,
        {
            match self.consume_class(p, class, plan) {
                Some(n) => {
                    if n == p {
                        break;
                    }
                    proof {
                        if on {
                            let r0 = rep_trail(cf, min as int, cap as int, e, p as int, c as int);
                            let r1 = rep_trail(cf, min as int, cap as int, e, n as int, c + 1);
                            assert(cf(p as int) == Some(n as int));
                            assert(r0 == seq![p as int] + r1);
                            assert(r1[0] == n);
                            assert(r0.drop_first() =~= r1);
                            assert(as_ints(ends@.push(n)) =~= as_ints(ends@).push(n as int));
                            assert(as_ints(ends@).push(n as int) + r1.drop_first() =~= as_ints(ends@)
                                + r1);
                        }
                    }
                    p = n;
                    c = c + 1;
                    ends.push(p);
                    self.check_repeat_depth(c as usize)?;
                },
                None => {
                    proof {
                        if on {
                            let r0 = rep_trail(cf, min as int, cap as int, e, p as int, c as int);
                            assert(r0 == seq![p as int]);
                            assert(as_ints(ends@) + r0.drop_first() =~= as_ints(ends@));
                        }
                    }
                    break;
                },
            }
        }
        proof {
            if on {
                assert(t.len() == c + 1);
            }
        }
        if c < min {
            return Ok(None);
        }
        self.bump_retry_n(c as u64)?;
        self.try_lengths(&ends, after, min, c, greedy, stop, Ghost(pos))
    }

    /// The continuation after each count from `count - 1` down to `min`,
    /// skipping the counts whose next byte cannot begin the character `fb`
    /// that must follow.
    fn try_follow_lengths(
        &mut self,
        after: usize,
        min: u32,
        count: u32,
        pos: usize,
        fb: u8,
        icase: bool,
        stop: Option<usize>,
    ) -> (r: Result<Option<usize>, Error>)
        requires
            old(self).inv(),
            min <= count,
            pos + count <= old(self).hay_end,
        ensures
            r matches Err(e) ==> run_error(e.kind),
            old(self).frame(&*final(self)),
            r matches Ok(Some(n)) ==> pos <= n <= old(self).hay_end,
            old(self).rep_plain() && old(self).anchors_ok() && (forall|q: int|
                pos <= q < pos + count && !follow_hit(old(self).hay@[q], fb, icase)
                    ==> #[trigger] old(self).plain_end(after as int, q, stop) is None) ==> old(
                self,
            ).keeps(&*final(self)) && (r matches Ok(v) ==> same_end(
                v,
                pick_down(
                    steps_from(pos as int, count as int),
                    old(self).rest_fn(after as int, stop),
                    min as int,
                    count - 1,
                ),
            )),
        decreases MAX_RUN_DEPTH - old(self).rdepth, 5int,
    {
        let ghost on = old(self).rep_plain() && old(self).anchors_ok() && (forall|q: int|
            pos <= q < pos + count && !follow_hit(old(self).hay@[q], fb, icase)
                ==> #[trigger] old(self).plain_end(after as int, q, stop) is None);
        let ghost t = steps_from(pos as int, count as int);
        let ghost rf = old(self).rest_fn(after as int, stop);
        let mut k = count;
        while k > min
            invariant
                old(self).frame(&*self),
                min <= k <= count,
                pos + count <= self.hay_end,
                self.hay@ == old(self).hay@,
                t == steps_from(pos as int, count as int),
                rf == old(self).rest_fn(after as int, stop),
                on == (old(self).rep_plain() && old(self).anchors_ok() && (forall|q: int|
                    pos <= q < pos + count && !follow_hit(old(self).hay@[q], fb, icase)
                        ==> #[trigger] old(self).plain_end(after as int, q, stop) is None)),
                on ==> old(self).keeps(&*self) && pick_down(t, rf, min as int, count - 1)
                    == pick_down(t, rf, min as int, k - 1),
            decreases k,
        {
            k = k - 1;
            let b = self.hay[pos + k as usize];
            let hit = if icase {
                ascii_lower_byte(b) == ascii_lower_byte(fb)
            } else {
                b == fb
            };
            let ghost q = pos + k;
            proof {
                if on {
                    assert(t[k as int] == q);
                    assert(rf(q) == old(self).plain_end(after as int, q, stop));
                    if !hit {
                        assert(!follow_hit(old(self).hay@[q], fb, icase));
                        assert(rf(q) is None);
                    }
                }
            }
            if hit {
                match self.run_stop(after, pos + k as usize, stop)? {
                    Some(r) => return Ok(Some(r)),
                    None => {},
                }
            }
        }
        proof {
            if on {
                assert(pick_down(t, rf, min as int, k - 1) is None);
            }
        }
        Ok(None)
    }

    /// Try the continuation at each admissible repetition count, longest first
    /// when greedy and shortest first when lazy.
    fn try_lengths(
        &mut self,
        ends: &Vec<usize>,
        after: usize,
        min: u32,
        count: u32,
        greedy: bool,
        stop: Option<usize>,
        Ghost(lo): Ghost<usize>,
    ) -> (r: Result<Option<usize>, Error>)
        requires
            old(self).inv(),
            min <= count,
            forall|k: int| 0 <= k < ends@.len() ==> lo <= #[trigger] ends@[k] <= old(self).hay_end,
        ensures
            r matches Err(e) ==> run_error(e.kind),
            old(self).frame(&*final(self)),
            r matches Ok(Some(n)) ==> lo <= n <= old(self).hay_end,
            old(self).rep_plain() && old(self).anchors_ok() && ends@.len() == count + 1 ==> old(
                self,
            ).keeps(&*final(self)) && (r matches Ok(v) ==> same_end(
                v,
                picked(as_ints(ends@), old(self).rest_fn(after as int, stop), min as int, greedy),
            )),
        decreases MAX_RUN_DEPTH - old(self).rdepth, 5int,
    {
        let ghost t = as_ints(ends@);
        let ghost rf = old(self).rest_fn(after as int, stop);
        let ghost on = old(self).rep_plain() && old(self).anchors_ok() && ends@.len() == count + 1;
        if greedy {
            let mut k = count;
            loop
                invariant
                    old(self).frame(&*self),
                    min <= k <= count,
                    forall|j: int| 0 <= j < ends@.len() ==> lo <= #[trigger] ends@[j] <= self.hay_end,
                    greedy,
                    t == as_ints(ends@),
                    rf == old(self).rest_fn(after as int, stop),
                    on == (old(self).rep_plain() && old(self).anchors_ok() && ends@.len() == count + 1),
                    on ==> old(self).keeps(&*self) && pick_down(t, rf, min as int, count as int)
                        == pick_down(t, rf, min as int, k as int),
                decreases k,
            {
                if (k as usize) < ends.len() {
                    match self.run_stop(after, ends[k as usize], stop)? {
                        Some(r) => return Ok(Some(r)),
                        None => {},
                    }
                }
                if k == min {
                    proof {
                        assert(pick_down(t, rf, min as int, k as int - 1) is None);
                    }
                    return Ok(None);
                }
                k = k - 1;
            }
        } else {
            let mut k = min;
            loop
                invariant
                    old(self).frame(&*self),
                    min <= k <= count,
                    forall|j: int| 0 <= j < ends@.len() ==> lo <= #[trigger] ends@[j] <= self.hay_end,
                    !greedy,
                    t == as_ints(ends@),
                    rf == old(self).rest_fn(after as int, stop),
                    on == (old(self).rep_plain() && old(self).anchors_ok() && ends@.len() == count + 1),
                    on ==> old(self).keeps(&*self) && pick_up(t, rf, min as int) == pick_up(t, rf, k as int),
                decreases count - k,
            {
                if (k as usize) < ends.len() {
                    match self.run_stop(after, ends[k as usize], stop)? {
                        Some(r) => return Ok(Some(r)),
                        None => {},
                    }
                }
                if k == count {
                    proof {
                        if on {
                            assert(pick_up(t, rf, k as int + 1) is None);
                        }
                    }
                    return Ok(None);
                }
                k = k + 1;
            }
        }
    }

    /// The capture state, to put back when a repetition round fails.
    fn snapshot_caps(&self) -> (r: (Vec<Option<usize>>, usize))
        ensures
            r.0@ == self.captures@,
            r.1 == self.hist@.len(),
    {
        let c = self.captures.clone();
        proof {
            assert forall|k: int| 0 <= k < c@.len() implies c@[k] == self.captures@[k] by {
                assert(cloned::<Option<usize>>(self.captures@[k], c@[k]));
            }
            assert(c@ =~= self.captures@);
        }
        (c, self.hist.len())
    }

    /// General repetition, iterative: a trail of the positions each
    /// iteration started from (and, when the body writes captures, the
    /// capture state to restore) stands in for recursion per iteration.
    fn repeat_rec(
        &mut self,
        body: usize,
        after: usize,
        min: u32,
        max: Option<u32>,
        greedy: bool,
        possessive: bool,
        pos: usize,
        writes_caps: bool,
        stop: Option<usize>,
    ) -> (r: Result<Option<usize>, Error>)
        requires
            old(self).inv(),
            pos <= old(self).hay_end,
        ensures
            r matches Err(e) ==> run_error(e.kind),
            old(self).frame(&*final(self)),
            r matches Ok(Some(n)) ==> pos <= n <= old(self).hay_end,
            old(self).rep_plain() && old(self).anchors_ok() ==> old(self).keeps(&*final(self)) && (r
                matches Ok(v) ==> same_end(
                v,
                rep_end(
                    old(self).body_fn(body as int, after as int),
                    old(self).rest_fn(after as int, stop),
                    min,
                    max,
                    greedy,
                    possessive,
                    pos as int,
                    old(self).hay_end as int,
                ),
            )),
        decreases MAX_RUN_DEPTH - old(self).rdepth, 15int,
    {
        let ghost on = old(self).rep_plain() && old(self).anchors_ok();
        let ghost bf = old(self).body_fn(body as int, after as int);
        let ghost rf = old(self).rest_fn(after as int, stop);
        let ghost e = old(self).hay_end as int;
        let ghost capi: int = match max {
            Some(m) => m as int,
            None => u32::MAX as int,
        };
        let ghost ncaps = old(self).captures@.len();
        self.bump_retry()?;
        if possessive {
            let ghost cap2: int = if capi < min { min as int } else { capi };
            let ghost t = rep_trail(bf, min as int, cap2, e, pos as int, 0);
            let mut p = pos;
            let mut c: u32 = 0;
            while c < min
                invariant
                    old(self).frame(&*self),
                    pos <= p <= self.hay_end,
                    c <= min,
                    possessive,
                    on == (old(self).rep_plain() && old(self).anchors_ok()),
                    bf == old(self).body_fn(body as int, after as int),
                    e == old(self).hay_end as int,
                    cap2 == (if capi < min { min as int } else { capi }),
                    capi == (match max {
                        Some(m) => m as int,
                        None => u32::MAX as int,
                    }),
                    t == rep_trail(bf, min as int, cap2, e, pos as int, 0),
                    on ==> old(self).keeps(&*self) && t.len() == c + rep_trail(
                        bf,
                        min as int,
                        cap2,
                        e,
                        p as int,
                        c as int,
                    ).len() && t.last() == rep_trail(bf, min as int, cap2, e, p as int, c as int).last(),
                decreases min - c,
            {
                let res = self.run_until(body, after, p)?;
                proof {
                    if on {
                        let r0 = rep_trail(bf, min as int, cap2, e, p as int, c as int);
                        match res {
                            Some(n) => {
                                let r1 = rep_trail(bf, min as int, cap2, e, n as int, c + 1);
                                assert(bf(p as int) == Some(n as int));
                                assert(r0 == seq![p as int] + r1);
                                assert(r1.len() >= 1);
                            },
                            None => {
                                assert(r0 == seq![p as int]);
                            },
                        }
                    }
                }
                match res {
                    Some(n) => {
                        p = n;
                        c = c + 1;
                    },
                    None => {
                        proof {
                            if on {
                                assert(t.len() == c + 1);
                            }
                        }
                        return Ok(None);
                    },
                }
            }
            let cap = match max {
                Some(m) => m,
                None => u32::MAX,
            };
            while c < cap
                invariant
                    old(self).frame(&*self),
                    pos <= p <= self.hay_end,
                    c >= min,
                    possessive,
                    cap as int == capi,
                    capi == (match max {
                        Some(m) => m as int,
                        None => u32::MAX as int,
                    }),
                    on == (old(self).rep_plain() && old(self).anchors_ok()),
                    bf == old(self).body_fn(body as int, after as int),
                    e == old(self).hay_end as int,
                    cap2 == (if capi < min { min as int } else { capi }),
                    t == rep_trail(bf, min as int, cap2, e, pos as int, 0),
                    on ==> old(self).keeps(&*self) && t.len() == c + rep_trail(
                        bf,
                        min as int,
                        cap2,
                        e,
                        p as int,
                        c as int,
                    ).len() && t.last() == rep_trail(bf, min as int, cap2, e, p as int, c as int).last(),
                ensures
                    old(self).frame(&*self),
                    pos <= p <= self.hay_end,
                    c >= min,
                    on ==> old(self).keeps(&*self) && t.len() == c + 1 && t.last() == p,
                decreases self.hay_end - p,
            {
                let res = self.run_until(body, after, p)?;
                proof {
                    if on {
                        let r0 = rep_trail(bf, min as int, cap2, e, p as int, c as int);
                        match res {
                            Some(n) => {
                                assert(bf(p as int) == Some(n as int));
                                if n != p {
                                    let r1 = rep_trail(bf, min as int, cap2, e, n as int, c + 1);
                                    assert(r0 == seq![p as int] + r1);
                                    assert(r1.len() >= 1);
                                } else {
                                    assert(r0 == seq![p as int]);
                                }
                            },
                            None => {
                                assert(r0 == seq![p as int]);
                            },
                        }
                    }
                }
                match res {
                    Some(n) => {
                        if n == p {
                            break;
                        }
                        p = n;
                        c = c + 1;
                        self.check_repeat_depth(c as usize)?;
                    },
                    None => break,
                }
            }
            proof {
                if on && c >= cap {
                    assert(rep_trail(bf, min as int, cap2, e, p as int, c as int) == seq![p as int]);
                }
            }
            return self.run_stop(after, p, stop);
        }
        let ghost t = rep_trail(bf, min as int, capi, e, pos as int, 0);
        // One entry per successful body iteration: the position it started
        // from, plus (only when the body writes captures) the capture state to
        // restore if the whole repetition fails from here.
        let mut trail: Vec<usize> = Vec::new();
        let mut caps_trail: Vec<(Vec<Option<usize>>, usize)> = Vec::new();
        let mut p = pos;
        let mut c: u32 = 0;
        proof {
            assert(as_ints(trail@) + t =~= t);
        }
        if greedy {
            loop
                invariant
                    old(self).frame(&*self),
                    pos <= p <= self.hay_end,
                    c as int == trail@.len(),
                    forall|k: int| 0 <= k < trail@.len() ==> pos <= #[trigger] trail@[k] <= self.hay_end,
                    on == (old(self).rep_plain() && old(self).anchors_ok()),
                    bf == old(self).body_fn(body as int, after as int),
                    e == old(self).hay_end as int,
                    capi == (match max {
                        Some(m) => m as int,
                        None => u32::MAX as int,
                    }),
                    t == rep_trail(bf, min as int, capi, e, pos as int, 0),
                    ncaps == old(self).captures@.len(),
                    on ==> forall|k: int| 0 <= k < caps_trail@.len() ==> (#[trigger] caps_trail@[k]).0@.len() == ncaps,
                    on ==> old(self).keeps(&*self) && as_ints(trail@) + rep_trail(
                        bf,
                        min as int,
                        capi,
                        e,
                        p as int,
                        c as int,
                    ) == t,
                ensures
                    old(self).frame(&*self),
                    pos <= p <= self.hay_end,
                    c as int == trail@.len(),
                    forall|k: int| 0 <= k < trail@.len() ==> pos <= #[trigger] trail@[k] <= self.hay_end,
                    on ==> forall|k: int| 0 <= k < caps_trail@.len() ==> (#[trigger] caps_trail@[k]).0@.len() == ncaps,
                    on ==> old(self).keeps(&*self) && as_ints(trail@).push(p as int) == t,
                decreases self.hay_end - p + (if c < min { min - c } else { 0int }),
            {
                let room = match max {
                    Some(m) => c < m,
                    None => c < u32::MAX,
                };
                if !room {
                    proof {
                        if on {
                            let r0 = rep_trail(bf, min as int, capi, e, p as int, c as int);
                            assert(r0 == seq![p as int]);
                            assert(as_ints(trail@) + r0 =~= as_ints(trail@).push(p as int));
                        }
                    }
                    break;
                }
                let cap = if writes_caps {
                    Some(self.snapshot_caps())
                } else {
                    None
                };
                let res = self.run_until(body, after, p)?;
                proof {
                    if on {
                        let r0 = rep_trail(bf, min as int, capi, e, p as int, c as int);
                        match res {
                            Some(n) => {
                                assert(bf(p as int) == Some(n as int));
                                if n == p && c >= min {
                                    assert(r0 == seq![p as int]);
                                    assert(as_ints(trail@) + r0 =~= as_ints(trail@).push(p as int));
                                } else {
                                    let r1 = rep_trail(bf, min as int, capi, e, n as int, c + 1);
                                    assert(r0 == seq![p as int] + r1);
                                    assert(as_ints(trail@.push(p)) =~= as_ints(trail@).push(p as int));
                                    assert(as_ints(trail@).push(p as int) + r1 =~= as_ints(trail@)
                                        + r0);
                                }
                            },
                            None => {
                                assert(r0 == seq![p as int]);
                                assert(as_ints(trail@) + r0 =~= as_ints(trail@).push(p as int));
                            },
                        }
                    }
                }
                match res {
                    // An empty iteration once `min` is satisfied stops the
                    // repetition, without restoring captures.
                    Some(n) => {
                        if n == p && c >= min {
                            break;
                        }
                        trail.push(p);
                        match cap {
                            Some(cc) => caps_trail.push(cc),
                            None => {},
                        }
                        p = n;
                        c = c + 1;
                        self.bump_retry()?;
                        self.check_repeat_depth(trail.len())?;
                    },
                    None => {
                        self.restore_caps(cap);
                        break;
                    },
                }
            }
            let ghost top = t.len() - 1;
            proof {
                if on {
                    assert(t.len() == c + 1);
                    assert(as_ints(trail@).push(p as int) =~= t.subrange(0, c + 1));
                }
            }
            // Unwind: longest first, trying the rest at each length down to
            // min.
            loop
                invariant
                    old(self).frame(&*self),
                    pos <= p <= self.hay_end,
                    c as int == trail@.len(),
                    forall|k: int| 0 <= k < trail@.len() ==> pos <= #[trigger] trail@[k] <= self.hay_end,
                    greedy,
                    !possessive,
                    on == (old(self).rep_plain() && old(self).anchors_ok()),
                    rf == old(self).rest_fn(after as int, stop),
                    bf == old(self).body_fn(body as int, after as int),
                    e == old(self).hay_end as int,
                    capi == (match max {
                        Some(m) => m as int,
                        None => u32::MAX as int,
                    }),
                    t == rep_trail(bf, min as int, capi, e, pos as int, 0),
                    top == t.len() - 1,
                    ncaps == old(self).captures@.len(),
                    on ==> forall|k: int| 0 <= k < caps_trail@.len() ==> (#[trigger] caps_trail@[k]).0@.len() == ncaps,
                    on ==> old(self).keeps(&*self) && c < t.len() && as_ints(trail@).push(p as int)
                        == t.subrange(0, c + 1) && pick_down(t, rf, min as int, top) == pick_down(
                        t,
                        rf,
                        min as int,
                        c as int,
                    ),
                decreases trail@.len(),
            {
                proof {
                    if on {
                        assert(t[c as int] == p) by {
                            assert(as_ints(trail@).push(p as int)[c as int] == p);
                        }
                    }
                }
                if c >= min {
                    match self.run_stop(after, p, stop)? {
                        Some(r) => return Ok(Some(r)),
                        None => {},
                    }
                }
                proof {
                    if on {
                        assert(pick_down(t, rf, min as int, top) == pick_down(
                            t,
                            rf,
                            min as int,
                            c - 1,
                        ));
                    }
                }
                let ghost tr0 = trail@;
                match trail.pop() {
                    None => {
                        proof {
                            if on {
                                assert(pick_down(t, rf, min as int, c - 1) is None);
                            }
                        }
                        return Ok(None);
                    },
                    Some(prev) => {
                        if writes_caps {
                            let last = caps_trail.pop();
                            self.restore_caps(last);
                        }
                        proof {
                            if on {
                                assert(tr0 == trail@.push(prev));
                                assert(as_ints(tr0) =~= as_ints(trail@).push(prev as int));
                                assert(as_ints(tr0).push(p as int) == t.subrange(0, c + 1));
                                assert(as_ints(tr0) =~= t.subrange(0, c as int));
                            }
                        }
                        p = prev;
                        c = c - 1;
                    },
                }
            }
        }
        // Lazy: try the rest first at each length, shortest first.
        loop
            invariant
                old(self).frame(&*self),
                pos <= p <= self.hay_end,
                !greedy,
                !possessive,
                c as int == trail@.len(),
                on == (old(self).rep_plain() && old(self).anchors_ok()),
                bf == old(self).body_fn(body as int, after as int),
                rf == old(self).rest_fn(after as int, stop),
                e == old(self).hay_end as int,
                capi == (match max {
                    Some(m) => m as int,
                    None => u32::MAX as int,
                }),
                t == rep_trail(bf, min as int, capi, e, pos as int, 0),
                ncaps == old(self).captures@.len(),
                on ==> forall|k: int| 0 <= k < caps_trail@.len() ==> (#[trigger] caps_trail@[k]).0@.len() == ncaps,
                on ==> old(self).keeps(&*self) && as_ints(trail@) + rep_trail(
                    bf,
                    min as int,
                    capi,
                    e,
                    p as int,
                    c as int,
                ) == t && (c >= min ==> pick_up(t, rf, min as int) == pick_up(t, rf, c as int)),
            ensures
                old(self).frame(&*self),
                ncaps == old(self).captures@.len(),
                on ==> forall|k: int| 0 <= k < caps_trail@.len() ==> (#[trigger] caps_trail@[k]).0@.len() == ncaps,
                on ==> old(self).keeps(&*self) && pick_up(t, rf, min as int) is None,
            decreases self.hay_end - p + (if c < min { min - c } else { 0int }),
        {
            let ghost r0 = rep_trail(bf, min as int, capi, e, p as int, c as int);
            proof {
                if on {
                    assert(r0[0] == p);
                    assert(t[c as int] == p) by {
                        assert((as_ints(trail@) + r0)[c as int] == r0[0]);
                    }
                }
            }
            if c >= min {
                match self.run_stop(after, p, stop)? {
                    Some(r) => return Ok(Some(r)),
                    None => {},
                }
            }
            let room = match max {
                Some(m) => c < m,
                None => c < u32::MAX,
            };
            if !room {
                proof {
                    if on {
                        assert(r0 == seq![p as int]);
                        assert(t.len() == c + 1);
                        assert(pick_up(t, rf, c + 1) is None);
                    }
                }
                break;
            }
            let cap = if writes_caps {
                Some(self.snapshot_caps())
            } else {
                None
            };
            let res = self.run_until(body, after, p)?;
            proof {
                if on {
                    match res {
                        Some(n) => {
                            assert(bf(p as int) == Some(n as int));
                            if n == p && c >= min {
                                assert(r0 == seq![p as int]);
                                assert(t.len() == c + 1);
                                assert(pick_up(t, rf, c + 1) is None);
                            } else {
                                let r1 = rep_trail(bf, min as int, capi, e, n as int, c + 1);
                                assert(r0 == seq![p as int] + r1);
                                assert(as_ints(trail@.push(p)) =~= as_ints(trail@).push(p as int));
                                assert(as_ints(trail@).push(p as int) + r1 =~= as_ints(trail@) + r0);
                            }
                        },
                        None => {
                            assert(r0 == seq![p as int]);
                            assert(t.len() == c + 1);
                            assert(pick_up(t, rf, c + 1) is None);
                        },
                    }
                }
            }
            match res {
                Some(n) => {
                    if n == p && c >= min {
                        break;
                    }
                    match cap {
                        Some(cc) => caps_trail.push(cc),
                        None => {},
                    }
                    trail.push(p);
                    p = n;
                    c = c + 1;
                    self.bump_retry()?;
                    self.check_repeat_depth(trail.len())?;
                },
                None => {
                    self.restore_caps(cap);
                    break;
                },
            }
        }
        // Every level that failed restores the captures it snapshotted, from
        // the deepest outwards, so the shallowest snapshot lands last.
        loop
            invariant
                old(self).frame(&*self),
                on == (old(self).rep_plain() && old(self).anchors_ok()),
                ncaps == old(self).captures@.len(),
                on ==> forall|k: int| 0 <= k < caps_trail@.len() ==> (#[trigger] caps_trail@[k]).0@.len() == ncaps,
                on ==> old(self).keeps(&*self) && pick_up(t, rf, min as int) is None,
            decreases caps_trail@.len(),
        {
            match caps_trail.pop() {
                Some(cc) => self.restore_caps(Some(cc)),
                None => break,
            }
        }
        Ok(None)
    }
}

} // verus!
