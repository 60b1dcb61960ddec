//! Compile-time search optimizations: facts about a program that let a search
//! skip start positions it can prove cannot match.
//!
//! The first-byte `Lead` filter answers "can a match begin with this byte".
//! This module answers a stronger question: "is there a byte sequence that
//! every match must contain, and how far from the start".

use vstd::prelude::*;
use super::ast::CharClass;
use super::encoding::Encoding;
use super::exec::plain::{
    ascii_lit, builtin_callout, char_at_spec, char_step, chars_step, class_step, compares_bytes, first_end,
    first_end_from, lemma_first_byte, lemma_rep_end_round, lemma_trail_bounds, lit_step, plain_inst,
    plain_program, rep_end, rep_rounds,
};
use super::exec::analyze::ends_at;
use super::exec::rep_syntactic;
use super::opcode::{Inst, Program, plan_bit};
use super::syntax::Options;
use super::unicode::UserProperty;

verus! {

/// A byte sequence every match must contain, with its distance from the match
/// start, and optionally the class run that must immediately precede it.
#[derive(Clone, Debug)]
pub struct ReqLit {
    /// The required bytes. Never empty.
    pub bytes: Vec<u8>,
    /// Smallest possible distance from match start to `bytes`.
    pub min_dist: u32,
    /// Largest possible distance, or `None` when unbounded.
    pub max_dist: Option<u32>,
    /// pc of a `Class` that forms an unbounded run immediately before the
    /// literal, when the literal's first byte is not in that class.
    pub run_class: Option<u16>,
}

impl ReqLit {
    /// The bytes are there, and an unbounded distance comes with a run class.
    pub open spec fn wf(&self) -> bool {
        &&& self.bytes@.len() > 0
        &&& (self.max_dist is None ==> self.run_class is Some)
        &&& (self.max_dist matches Some(m) ==> self.min_dist <= m)
    }
}

/// Width contributed by one instruction span, in bytes.
#[derive(Clone, Copy)]
struct Dist {
    min: u32,
    max: Option<u32>,
}

/// `a * b`, or `u32::MAX` when that does not fit.
pub(crate) fn sat_mul32(a: u32, b: u32) -> (r: u32)
    ensures
        r == (if a * b <= u32::MAX { (a * b) as u32 } else { u32::MAX }),
{
    match a.checked_mul(b) {
        Some(x) => x,
        None => u32::MAX,
    }
}

impl Dist {
    spec fn ok(self) -> bool {
        self.max matches Some(m) ==> self.min <= m
    }

    fn zero() -> (r: Dist)
        ensures
            r.ok(),
            r.min == 0 && r.max == Some(0u32),
    {
        Dist { min: 0, max: Some(0) }
    }

    fn add(self, min: u32, max: Option<u32>) -> (r: Dist)
        requires
            self.ok(),
            max matches Some(m) ==> min <= m,
        ensures
            r.ok(),
            r.min == (if self.min + min <= u32::MAX { (self.min + min) as u32 } else { u32::MAX }),
            r.max == (match (self.max, max) {
                (Some(a), Some(b)) => Some(
                    if a + b <= u32::MAX { (a + b) as u32 } else { u32::MAX },
                ),
                _ => None,
            }),
    {
        Dist {
            min: self.min.saturating_add(min),
            max: match (self.max, max) {
                (Some(a), Some(b)) => Some(a.saturating_add(b)),
                _ => None,
            },
        }
    }
}

/// The ASCII bitmap of the class at `class_pc`, when there is one.
pub open spec fn plan_at(prog: &Program, class_pc: int) -> Option<[u64; 2]> {
    if 0 <= class_pc < prog.class_plans@.len() {
        match prog.class_plans@[class_pc] {
            Some(plan) => Some(plan.ascii),
            None => None,
        }
    } else {
        None
    }
}

/// Could byte `b` be part of a run of the class at `class_pc`? Any byte
/// counts when there is no bitmap, and any non-ASCII byte counts.
pub open spec fn admits(prog: &Program, class_pc: int, b: u8) -> bool {
    match plan_at(prog, class_pc) {
        Some(ascii) => b >= 0x80 || plan_bit(ascii, b as u32),
        None => true,
    }
}

fn class_admits_byte(prog: &Program, class_pc: usize, b: u8) -> (r: bool)
    ensures
        r == admits(prog, class_pc as int, b),
{
    if class_pc < prog.class_plans.len() {
        match prog.class_plans[class_pc] {
            Some(plan) => {
                if b >= 0x80 {
                    return true;
                }
                plan.hit(b as u32)
            },
            None => true,
        }
    } else {
        true
    }
}

/// Is the instruction at `pc` a `Class`?
pub open spec fn is_class_at(prog: &Program, pc: int) -> bool {
    0 <= pc < prog.insts@.len() && prog.insts@[pc] is Class
}

fn class_of(prog: &Program, pc: usize) -> (r: Option<&CharClass>)
    ensures
        r is Some <==> is_class_at(prog, pc as int),
{
    if pc < prog.insts.len() {
        match &prog.insts[pc] {
            Inst::Class { class } => Some(class),
            _ => None,
        }
    } else {
        None
    }
}

/// Bytes that copy all-ASCII code points one for one are the literal's
/// bytes.
proof fn lemma_ascii_bytes(v: Seq<u32>, b: Seq<u8>)
    requires
        b.len() == v.len(),
        forall|k: int| 0 <= k < v.len() ==> b[k] as u32 == v[k],
    ensures
        b == Seq::new(v.len(), |k: int| v[k] as u8),
{
    assert forall|k: int| 0 <= k < v.len() implies b[k] == v[k] as u8 by {
        assert(b[k] as u32 == v[k]);
    }
    assert(b =~= Seq::new(v.len(), |k: int| v[k] as u8));
}

/// The code points of `v` as bytes, when all are ASCII.
fn ascii_bytes(v: &Vec<u32>) -> (r: Option<Vec<u8>>)
    ensures
        r is Some <==> (forall|k: int| 0 <= k < v@.len() ==> v@[k] <= 0x7F),
        r matches Some(b) ==> b@.len() == v@.len() && forall|k: int|
            0 <= k < v@.len() ==> b@[k] as u32 == v@[k],
{
    let mut out: Vec<u8> = Vec::new();
    let mut i: usize = 0;
    while i < v.len()
        invariant
            i <= v@.len(),
            out@.len() == i,
            forall|k: int| 0 <= k < i ==> v@[k] <= 0x7F && out@[k] as u32 == v@[k],
        decreases v@.len() - i,
    {
        if v[i] > 0x7F {
            return None;
        }
        out.push(v[i] as u8);
        i = i + 1;
    }
    Some(out)
}

/// The bytes of an all-ASCII `Char` or `Literal` instruction.
pub open spec fn inst_ascii_bytes(inst: Inst) -> Option<Seq<u8>> {
    match inst {
        Inst::Char(c) => if c <= 0x7F {
            Some(seq![c as u8])
        } else {
            None
        },
        Inst::Literal(v) => if forall|k: int| 0 <= k < v@.len() ==> v@[k] <= 0x7F {
            Some(Seq::new(v@.len(), |k: int| v@[k] as u8))
        } else {
            None
        },
        _ => None,
    }
}

/// `l` comes from `prog`: its bytes are those of one of its literal
/// instructions, and the class run it is anchored to refuses its first byte.
pub open spec fn from_program(prog: &Program, l: ReqLit) -> bool {
    &&& exists|pc: int|
        0 <= pc < prog.insts@.len() && #[trigger] inst_ascii_bytes(prog.insts@[pc]) == Some(
            l.bytes@,
        )
    &&& (l.run_class matches Some(c) ==> !admits(prog, c as int, l.bytes@[0]))
}

/// Every match from the start of a plain program reaches `pc` at a position
/// at least `min` bytes in, and at most `max` when that is given and did not
/// saturate.
pub open spec fn reaches(insts: Seq<Inst>, opt: Options, pc: int, min: u32, max: Option<u32>) -> bool {
    forall|enc: Encoding, hay: Seq<u8>, s: int, props: Seq<UserProperty>|
        enc.min_len_spec() == 1 && #[trigger] first_end(
            insts,
            enc,
            hay,
            hay.len() as int,
            opt,
            props,
            0,
            s,
            None,
        ) is Some ==> exists|p: int|
            s + min <= p && (max matches Some(m) ==> (p <= s + m || m == u32::MAX))
                && #[trigger] first_end(insts, enc, hay, hay.len() as int, opt, props, pc, p, None)
                is Some
}

/// Every match of a plain program, starting at `s`, has `l`'s bytes at a
/// distance from `s` within `l`'s bounds (the upper one when it did not
/// saturate), in every encoding whose characters can be one byte long.
pub open spec fn req_covers(l: ReqLit, insts: Seq<Inst>, opt: Options) -> bool {
    forall|enc: Encoding, hay: Seq<u8>, s: int, props: Seq<UserProperty>|
        enc.min_len_spec() == 1 && #[trigger] first_end(
            insts,
            enc,
            hay,
            hay.len() as int,
            opt,
            props,
            0,
            s,
            None,
        ) is Some ==> exists|q: int|
            s + l.min_dist <= q && (l.max_dist matches Some(m) ==> (q <= s + m || m == u32::MAX))
                && #[trigger] occurs_at(hay, l.bytes@, q)
}

/// The bytes one round of a one-instruction repetition body takes, at least
/// and (where fixed) at most: a case-kept ASCII character or all-ASCII
/// literal exactly its length; any other character or class member at least
/// one byte; any other literal at least one byte per character; anything
/// else nothing known.
pub open spec fn unit_bounds(inst: Inst, icase: bool) -> (u32, Option<u32>) {
    match inst {
        Inst::Char(c) => if c <= 0x7F && !icase {
            (1u32, Some(1u32))
        } else {
            (1u32, None)
        },
        Inst::Class { .. } => (1u32, None),
        Inst::Literal(v) => {
            let n: u32 = if v@.len() > u32::MAX { u32::MAX } else { v@.len() as u32 };
            if !icase && v@.len() <= u32::MAX && ascii_lit(v@) is Some {
                (n, Some(n))
            } else {
                (n, None)
            }
        },
        _ => (0u32, None),
    }
}

/// A body of one instruction at `body` that goes straight on to `after`.
pub open spec fn single_body(insts: Seq<Inst>, body: int, after: int) -> bool {
    0 <= body < insts.len() && body < after && ends_at(insts, body, after)
}

/// Stepping over characters one by one takes at least a byte each.
proof fn lemma_chars_step_len(
    enc: Encoding,
    hay: Seq<u8>,
    end: int,
    opt: Options,
    pos: int,
    v: Seq<u32>,
    k: int,
)
    requires
        0 <= k <= v.len(),
    ensures
        chars_step(enc, hay, end, opt, pos, v, k) matches Some(n) ==> pos + (v.len() - k) <= n,
    decreases v.len() - k,
{
    if k < v.len() {
        match char_step(enc, hay, end, opt, pos, v[k]) {
            Some(p) => {
                lemma_chars_step_len(enc, hay, end, opt, p, v, k + 1);
            },
            None => {},
        }
    }
}

/// Every round of a one-instruction body takes the bytes `unit_bounds`
/// says, in an encoding whose characters can be one byte long.
proof fn lemma_unit_width(
    insts: Seq<Inst>,
    enc: Encoding,
    hay: Seq<u8>,
    end: int,
    opt: Options,
    props: Seq<UserProperty>,
    body: int,
    after: int,
    q: int,
)
    requires
        single_body(insts, body, after),
        after <= 65535,
        enc.min_len_spec() == 1,
    ensures
        ({
            let (umin, umax) = unit_bounds(insts[body], opt.has(Options::ignorecase_spec()));
            let r = first_end(insts, enc, hay, end, opt, props, body, q, Some(after as usize));
            r is Some && q <= r->0 ==> q + umin <= r->0 && (umax is Some ==> r->0 <= q + umax->0)
        }),
{
    let icase = opt.has(Options::ignorecase_spec());
    assert((after as usize) as int == after);
    match first_end(insts, enc, hay, end, opt, props, body, q, Some(after as usize)) {
        Some(n) => {
            let st: Option<int> = match insts[body] {
                Inst::Char(c) => char_step(enc, hay, end, opt, q, c),
                Inst::Class { class } => class_step(enc, hay, end, opt, props, q, class),
                Inst::Literal(v) => lit_step(enc, hay, end, opt, q, v@),
                _ => None,
            };
            match insts[body] {
                Inst::Char(c) => {
                    let p1 = st->0;
                    assert(first_end(insts, enc, hay, end, opt, props, body + 1, p1, Some(after as usize)) == Some(n));
                    if body + 1 != after {
                        assert(first_end(insts, enc, hay, end, opt, props, after, p1, Some(after as usize)) == Some(p1));
                    }
                    assert(n == p1);
                    lemma_first_byte(enc, hay, q, end);
                    assert(q + 1 <= n);
                    if c <= 0x7F && !icase {
                        assert(n == q + 1);
                    }
                },
                Inst::Class { class } => {
                    let p1 = st->0;
                    assert(first_end(insts, enc, hay, end, opt, props, body + 1, p1, Some(after as usize)) == Some(n));
                    if body + 1 != after {
                        assert(first_end(insts, enc, hay, end, opt, props, after, p1, Some(after as usize)) == Some(p1));
                    }
                    assert(n == p1);
                    assert(q + 1 <= n);
                },
                Inst::Literal(v) => {
                    let p1 = st->0;
                    assert(first_end(insts, enc, hay, end, opt, props, body + 1, p1, Some(after as usize)) == Some(n));
                    if body + 1 != after {
                        assert(first_end(insts, enc, hay, end, opt, props, after, p1, Some(after as usize)) == Some(p1));
                    }
                    assert(n == p1);
                    if !compares_bytes(enc, opt, v@) {
                        lemma_chars_step_len(enc, hay, end, opt, q, v@, 0);
                        assert(q + v@.len() <= n);
                    } else {
                        let b = ascii_lit(v@)->0;
                        assert(b.len() == v@.len());
                        assert(n == q + v@.len());
                    }
                },
                _ => {},
            }
        },
        None => {},
    }
}

/// Every match that reaches a repetition reaches what follows it, further on
/// by at least `min` rounds' and at most `max` rounds' worth of the body's
/// bytes.
proof fn lemma_repeat_advance(
    insts: Seq<Inst>,
    opt: Options,
    pc: int,
    min0: u32,
    max0: Option<u32>,
    lo: u32,
    hi: Option<u32>,
    min1: u32,
    max1: Option<u32>,
)
    requires
        reaches(insts, opt, pc, min0, max0),
        0 <= pc < insts.len(),
        insts[pc] is Repeat,
        ({
            let body = insts[pc]->Repeat_body as int;
            let after = insts[pc]->Repeat_after as int;
            let rmin = insts[pc]->Repeat_min;
            let rmax = insts[pc]->Repeat_max;
            let (umin, umax) = if single_body(insts, body, after) {
                unit_bounds(insts[body], opt.has(Options::ignorecase_spec()))
            } else {
                (0u32, None)
            };
            &&& lo as int == (if rmin * umin <= u32::MAX { rmin * umin } else { u32::MAX as int })
            &&& hi == (match (rmax, umax) {
                (Some(m), Some(w)) => Some(
                    if m >= rmin {
                        if m * w <= u32::MAX { (m * w) as u32 } else { u32::MAX }
                    } else {
                        lo
                    },
                ),
                _ => None,
            })
        }),
        min1 == (if min0 + lo <= u32::MAX { (min0 + lo) as u32 } else { u32::MAX }),
        max1 == (match (max0, hi) {
            (Some(a), Some(b)) => Some(if a + b <= u32::MAX { (a + b) as u32 } else { u32::MAX }),
            _ => None,
        }),
    ensures
        reaches(insts, opt, insts[pc]->Repeat_after as int, min1, max1),
{
    let body = insts[pc]->Repeat_body as int;
    let after = insts[pc]->Repeat_after as int;
    let rmin = insts[pc]->Repeat_min;
    let rmax = insts[pc]->Repeat_max;
    let greedy = insts[pc]->Repeat_greedy;
    let possessive = insts[pc]->Repeat_possessive;
    let single = single_body(insts, body, after);
    let (umin, umax) = if single {
        unit_bounds(insts[body], opt.has(Options::ignorecase_spec()))
    } else {
        (0u32, None)
    };
    assert forall|enc: Encoding, hay: Seq<u8>, s: int, props: Seq<UserProperty>|
        enc.min_len_spec() == 1 && #[trigger] first_end(
            insts,
            enc,
            hay,
            hay.len() as int,
            opt,
            props,
            0,
            s,
            None,
        ) is Some implies exists|p: int|
        s + min1 <= p && (max1 matches Some(m) ==> (p <= s + m || m == u32::MAX))
            && #[trigger] first_end(insts, enc, hay, hay.len() as int, opt, props, after, p, None)
            is Some by {
        let end = hay.len() as int;
        let p = choose|p: int|
            s + min0 <= p && (max0 matches Some(m) ==> (p <= s + m || m == u32::MAX))
                && #[trigger] first_end(insts, enc, hay, end, opt, props, pc, p, None) is Some;
        assert(first_end(insts, enc, hay, end, opt, props, pc, p, None) is Some);
        assert(pc < body <= insts.len() && pc < after <= insts.len());
        let bf = first_end_from(insts, enc, hay, end, opt, props, body, Some(after as usize));
        let rf = first_end_from(insts, enc, hay, end, opt, props, after, None);
        assert(first_end(insts, enc, hay, end, opt, props, pc, p, None) == rep_end(
            bf,
            rf,
            rmin,
            rmax,
            greedy,
            possessive,
            p,
            end,
        ));
        lemma_rep_end_round(bf, rf, rmin, rmax, greedy, possessive, p, end);
        let t = rep_rounds(bf, rmin, rmax, possessive, p, end);
        let j = choose|j: int| rmin <= j < t.len() && rf(#[trigger] t[j]) == rep_end(
            bf,
            rf,
            rmin,
            rmax,
            greedy,
            possessive,
            p,
            end,
        );
        let hh: Option<int> = match umax {
            Some(w) => Some(w as int),
            None => None,
        };
        assert forall|q: int| (#[trigger] bf(q)) is Some && q <= bf(q)->0 implies q + umin <= bf(
            q,
        )->0 && (hh is Some ==> bf(q)->0 <= q + hh->0) by {
            if single {
                lemma_unit_width(insts, enc, hay, end, opt, props, body, after, q);
                assert(bf(q) == first_end(insts, enc, hay, end, opt, props, body, q, Some(after as usize)));
            }
        }
        let cap: int = match rmax {
            Some(m) => m as int,
            None => u32::MAX as int,
        };
        let capx: int = if possessive && cap < rmin { rmin as int } else { cap };
        lemma_trail_bounds(bf, rmin as int, capx, end, p, 0, umin as int, hh);
        let q = t[j];
        assert(first_end(insts, enc, hay, end, opt, props, after, q, None) is Some);
        assert(q >= p + j * umin);
        assert(j * umin >= rmin * umin) by (nonlinear_arith)
            requires
                j >= rmin,
                umin >= 0,
        ;
        assert(s + min1 <= q);
        match max1 {
            Some(m) => {
                if m != u32::MAX {
                    let a = max0->0;
                    let b = hi->0;
                    assert(p <= s + a);
                    let w = umax->0;
                    let mm = rmax->0;
                    assert(q <= p + j * w);
                    if mm >= rmin {
                        assert(j <= mm);
                        assert(j * w <= mm * w) by (nonlinear_arith)
                            requires
                                j <= mm,
                                w >= 0,
                        ;
                    } else {
                        assert(possessive);
                        assert(j <= rmin);
                        assert(j * w <= rmin * w) by (nonlinear_arith)
                            requires
                                j <= rmin,
                                w >= 0,
                        ;
                    }
                    assert(q <= s + m);
                }
            },
            None => {},
        }
    }
}

/// Is the body from `body` a single instruction that goes straight on to
/// `after`?
fn body_is_single(prog: &Program, body: usize, after: usize) -> (r: bool)
    ensures
        r == single_body(prog.insts@, body as int, after as int),
{
    let n = prog.insts.len();
    if body >= n || after <= body {
        return false;
    }
    if body + 1 < n {
        match &prog.insts[body + 1] {
            Inst::Jump(j) => *j as usize == after,
            _ => body + 1 == after,
        }
    } else {
        body + 1 == after
    }
}

/// A zero-width instruction at `pc` passes every match on to `next`.
pub open spec fn zero_width_step(insts: Seq<Inst>, pc: int, next: int) -> bool {
    0 <= pc < insts.len() && match insts[pc] {
        Inst::Nop | Inst::Save(_) | Inst::Assert(_) | Inst::Callout { .. } => next == pc + 1,
        Inst::Jump(j) => next == j && pc < j,
        _ => false,
    }
}

proof fn lemma_reaches_start(insts: Seq<Inst>, opt: Options)
    ensures
        reaches(insts, opt, 0, 0, Some(0u32)),
{
    assert forall|enc: Encoding, hay: Seq<u8>, s: int, props: Seq<UserProperty>|
        enc.min_len_spec() == 1 && #[trigger] first_end(
            insts,
            enc,
            hay,
            hay.len() as int,
            opt,
            props,
            0,
            s,
            None,
        ) is Some implies exists|p: int|
        s + 0 <= p && (Some(0u32) matches Some(m) ==> (p <= s + m || m == u32::MAX))
            && #[trigger] first_end(insts, enc, hay, hay.len() as int, opt, props, 0, p, None)
            is Some by {}
}

proof fn lemma_reaches_step(insts: Seq<Inst>, opt: Options, pc: int, next: int, min: u32, max: Option<u32>)
    requires
        reaches(insts, opt, pc, min, max),
        zero_width_step(insts, pc, next),
    ensures
        reaches(insts, opt, next, min, max),
{
    assert forall|enc: Encoding, hay: Seq<u8>, s: int, props: Seq<UserProperty>|
        enc.min_len_spec() == 1 && #[trigger] first_end(
            insts,
            enc,
            hay,
            hay.len() as int,
            opt,
            props,
            0,
            s,
            None,
        ) is Some implies exists|p: int|
        s + min <= p && (max matches Some(m) ==> (p <= s + m || m == u32::MAX))
            && #[trigger] first_end(insts, enc, hay, hay.len() as int, opt, props, next, p, None)
            is Some by {
        let p = choose|p: int|
            s + min <= p && (max matches Some(m) ==> (p <= s + m || m == u32::MAX))
                && #[trigger] first_end(insts, enc, hay, hay.len() as int, opt, props, pc, p, None)
                is Some;
        assert(first_end(insts, enc, hay, hay.len() as int, opt, props, next, p, None) is Some);
    }
}

proof fn lemma_char_covers(
    insts: Seq<Inst>,
    opt: Options,
    pc: int,
    c: u32,
    bytes: Seq<u8>,
    min: u32,
    max: Option<u32>,
)
    requires
        reaches(insts, opt, pc, min, max),
        !opt.has(Options::ignorecase_spec()),
        0 <= pc < insts.len(),
        insts[pc] == Inst::Char(c),
        c <= 0x7F,
        bytes == seq![c as u8],
    ensures
        forall|l: ReqLit|
            l.bytes@ == bytes && l.min_dist == min && l.max_dist == max ==> #[trigger] req_covers(
                l,
                insts,
                opt,
            ),
{
    assert forall|l: ReqLit|
        l.bytes@ == bytes && l.min_dist == min && l.max_dist == max implies #[trigger] req_covers(
        l,
        insts,
        opt,
    ) by {
        assert forall|enc: Encoding, hay: Seq<u8>, s: int, props: Seq<UserProperty>|
            enc.min_len_spec() == 1 && #[trigger] first_end(
                insts,
                enc,
                hay,
                hay.len() as int,
                opt,
                props,
                0,
                s,
                None,
            ) is Some implies exists|q: int|
            s + l.min_dist <= q && (l.max_dist matches Some(m) ==> (q <= s + m || m == u32::MAX))
                && #[trigger] occurs_at(hay, l.bytes@, q) by {
            let end = hay.len() as int;
            let p = choose|p: int|
                s + min <= p && (max matches Some(m) ==> (p <= s + m || m == u32::MAX))
                    && #[trigger] first_end(insts, enc, hay, end, opt, props, pc, p, None) is Some;
            assert(first_end(insts, enc, hay, end, opt, props, pc, p, None) is Some);
            lemma_first_byte(enc, hay, p, end);
            assert(hay.subrange(p, p + 1) =~= bytes);
            assert(occurs_at(hay, l.bytes@, p));
        }
    }
}

proof fn lemma_char_advance(
    insts: Seq<Inst>,
    opt: Options,
    pc: int,
    c: u32,
    min0: u32,
    max0: Option<u32>,
    min1: u32,
    max1: Option<u32>,
)
    requires
        reaches(insts, opt, pc, min0, max0),
        !opt.has(Options::ignorecase_spec()),
        0 <= pc < insts.len(),
        insts[pc] == Inst::Char(c),
        c <= 0x7F,
        min1 == (if min0 + 1 <= u32::MAX { (min0 + 1) as u32 } else { u32::MAX }),
        max1 == (match max0 {
            Some(a) => Some(if a + 1 <= u32::MAX { (a + 1) as u32 } else { u32::MAX }),
            None => None,
        }),
    ensures
        reaches(insts, opt, pc + 1, min1, max1),
{
    assert forall|enc: Encoding, hay: Seq<u8>, s: int, props: Seq<UserProperty>|
        enc.min_len_spec() == 1 && #[trigger] first_end(
            insts,
            enc,
            hay,
            hay.len() as int,
            opt,
            props,
            0,
            s,
            None,
        ) is Some implies exists|p: int|
        s + min1 <= p && (max1 matches Some(m) ==> (p <= s + m || m == u32::MAX))
            && #[trigger] first_end(insts, enc, hay, hay.len() as int, opt, props, pc + 1, p, None)
            is Some by {
        let end = hay.len() as int;
        let p = choose|p: int|
            s + min0 <= p && (max0 matches Some(m) ==> (p <= s + m || m == u32::MAX))
                && #[trigger] first_end(insts, enc, hay, end, opt, props, pc, p, None) is Some;
        assert(first_end(insts, enc, hay, end, opt, props, pc, p, None) is Some);
        lemma_first_byte(enc, hay, p, end);
        assert(first_end(insts, enc, hay, end, opt, props, pc + 1, p + 1, None) is Some);
    }
}

proof fn lemma_literal_covers(
    insts: Seq<Inst>,
    opt: Options,
    pc: int,
    v: Seq<u32>,
    bytes: Seq<u8>,
    min: u32,
    max: Option<u32>,
)
    requires
        reaches(insts, opt, pc, min, max),
        !opt.has(Options::ignorecase_spec()),
        0 <= pc < insts.len(),
        insts[pc] matches Inst::Literal(w) && w@ == v,
        ascii_lit(v) == Some(bytes),
    ensures
        forall|l: ReqLit|
            l.bytes@ == bytes && l.min_dist == min && l.max_dist == max ==> #[trigger] req_covers(
                l,
                insts,
                opt,
            ),
{
    assert forall|l: ReqLit|
        l.bytes@ == bytes && l.min_dist == min && l.max_dist == max implies #[trigger] req_covers(
        l,
        insts,
        opt,
    ) by {
        assert forall|enc: Encoding, hay: Seq<u8>, s: int, props: Seq<UserProperty>|
            enc.min_len_spec() == 1 && #[trigger] first_end(
                insts,
                enc,
                hay,
                hay.len() as int,
                opt,
                props,
                0,
                s,
                None,
            ) is Some implies exists|q: int|
            s + l.min_dist <= q && (l.max_dist matches Some(m) ==> (q <= s + m || m == u32::MAX))
                && #[trigger] occurs_at(hay, l.bytes@, q) by {
            let end = hay.len() as int;
            let p = choose|p: int|
                s + min <= p && (max matches Some(m) ==> (p <= s + m || m == u32::MAX))
                    && #[trigger] first_end(insts, enc, hay, end, opt, props, pc, p, None) is Some;
            assert(first_end(insts, enc, hay, end, opt, props, pc, p, None) is Some);
            assert(occurs_at(hay, l.bytes@, p));
        }
    }
}

proof fn lemma_literal_advance(
    insts: Seq<Inst>,
    opt: Options,
    pc: int,
    v: Seq<u32>,
    bytes: Seq<u8>,
    n: u32,
    min0: u32,
    max0: Option<u32>,
    min1: u32,
    max1: Option<u32>,
)
    requires
        reaches(insts, opt, pc, min0, max0),
        !opt.has(Options::ignorecase_spec()),
        0 <= pc < insts.len(),
        insts[pc] matches Inst::Literal(w) && w@ == v,
        ascii_lit(v) == Some(bytes),
        n == (if bytes.len() > 0xFFFF_FFFF { 0xFFFF_FFFFu32 } else { bytes.len() as u32 }),
        min1 == (if min0 + n <= u32::MAX { (min0 + n) as u32 } else { u32::MAX }),
        max1 == (match max0 {
            Some(a) => Some(if a + n <= u32::MAX { (a + n) as u32 } else { u32::MAX }),
            None => None,
        }),
    ensures
        reaches(insts, opt, pc + 1, min1, max1),
{
    assert forall|enc: Encoding, hay: Seq<u8>, s: int, props: Seq<UserProperty>|
        enc.min_len_spec() == 1 && #[trigger] first_end(
            insts,
            enc,
            hay,
            hay.len() as int,
            opt,
            props,
            0,
            s,
            None,
        ) is Some implies exists|p: int|
        s + min1 <= p && (max1 matches Some(m) ==> (p <= s + m || m == u32::MAX))
            && #[trigger] first_end(insts, enc, hay, hay.len() as int, opt, props, pc + 1, p, None)
            is Some by {
        let end = hay.len() as int;
        let p = choose|p: int|
            s + min0 <= p && (max0 matches Some(m) ==> (p <= s + m || m == u32::MAX))
                && #[trigger] first_end(insts, enc, hay, end, opt, props, pc, p, None) is Some;
        assert(first_end(insts, enc, hay, end, opt, props, pc, p, None) is Some);
        assert(first_end(insts, enc, hay, end, opt, props, pc + 1, p + bytes.len(), None) is Some);
    }
}

proof fn lemma_one_char_advance(
    insts: Seq<Inst>,
    opt: Options,
    pc: int,
    min0: u32,
    max0: Option<u32>,
    min1: u32,
)
    requires
        reaches(insts, opt, pc, min0, max0),
        0 <= pc < insts.len(),
        insts[pc] is Class || insts[pc] is Any || insts[pc] is SuperAny,
        min1 == (if min0 + 1 <= u32::MAX { (min0 + 1) as u32 } else { u32::MAX }),
    ensures
        reaches(insts, opt, pc + 1, min1, None),
{
    assert forall|enc: Encoding, hay: Seq<u8>, s: int, props: Seq<UserProperty>|
        enc.min_len_spec() == 1 && #[trigger] first_end(
            insts,
            enc,
            hay,
            hay.len() as int,
            opt,
            props,
            0,
            s,
            None,
        ) is Some implies exists|p: int|
        s + min1 <= p && #[trigger] first_end(
            insts,
            enc,
            hay,
            hay.len() as int,
            opt,
            props,
            pc + 1,
            p,
            None,
        ) is Some by {
        let end = hay.len() as int;
        let p = choose|p: int|
            s + min0 <= p && (max0 matches Some(m) ==> (p <= s + m || m == u32::MAX))
                && #[trigger] first_end(insts, enc, hay, end, opt, props, pc, p, None) is Some;
        assert(first_end(insts, enc, hay, end, opt, props, pc, p, None) is Some);
        let (cp, k) = char_at_spec(enc, hay, p, end)->0;
        assert(first_end(insts, enc, hay, end, opt, props, pc + 1, p + k, None) is Some);
    }
}

/// Find a byte sequence that every match must contain.
///
/// Walks only the program's unconditional spine: it stops at any `Split`, and
/// steps over repetitions rather than into them, so anything it returns is on
/// every path by construction.
#[verifier::spinoff_prover]
#[verifier::rlimit(60)]
pub fn required_literal(prog: &Program, ascii_ok: bool, options: Options) -> (r: Option<ReqLit>)
    ensures
        !ascii_ok ==> r is None,
        r matches Some(l) ==> l.wf() && from_program(prog, l),
        plain_program(prog.insts@) ==> (r matches Some(l) ==> req_covers(l, prog.insts@, options)
            && l.run_class is None),
        rep_syntactic(prog.insts@) ==> (r matches Some(l) ==> req_covers(l, prog.insts@, options)),
        ascii_ok && !options.has(Options::ignorecase_spec()) && prog.insts@.len() > 0 && (
        inst_ascii_bytes(prog.insts@[0]) matches Some(b) && b.len() > 0) ==> r is Some,
{
    if !ascii_ok {
        return None;
    }
    let ghost first_lit = !options.has(Options::ignorecase_spec()) && prog.insts@.len() > 0 && (
    inst_ascii_bytes(prog.insts@[0]) matches Some(b) && b.len() > 0);
    let ghost plain = plain_program(prog.insts@);
    let ghost rp = rep_syntactic(prog.insts@);
    let ghost insts = prog.insts@;
    proof {
        lemma_reaches_start(insts, options);
    }
    let mut cur = options;
    let mut opt_stack: Vec<Options> = Vec::new();
    let mut best: Option<ReqLit> = None;
    let mut dist = Dist::zero();
    let mut pc: usize = 0;
    let mut fuel: u32 = 4096;
    // pc of an unbounded simple-class repeat seen immediately before the
    // current position, if any.
    let mut pending_run: Option<u16> = None;
    while fuel > 0
        invariant
            dist.ok(),
            best matches Some(l) ==> l.wf() && from_program(prog, l),
            insts == prog.insts@,
            plain == plain_program(prog.insts@),
            plain ==> cur == options && pending_run is None,
            plain && !options.has(Options::ignorecase_spec()) ==> reaches(
                insts,
                options,
                pc as int,
                dist.min,
                dist.max,
            ),
            plain ==> (best matches Some(l) ==> req_covers(l, insts, options)
                && l.run_class is None),
            rp == rep_syntactic(prog.insts@),
            plain ==> rp,
            rp ==> cur == options,
            rp && !options.has(Options::ignorecase_spec()) ==> reaches(
                insts,
                options,
                pc as int,
                dist.min,
                dist.max,
            ),
            rp ==> (best matches Some(l) ==> req_covers(l, insts, options)),
            first_lit ==> (fuel == 4096 && pc == 0 && cur == options && dist.min == 0 && dist.max
                == Some(0u32)) || best is Some,
            first_lit == (!options.has(Options::ignorecase_spec()) && prog.insts@.len() > 0 && (
            inst_ascii_bytes(prog.insts@[0]) matches Some(b) && b.len() > 0)),
        ensures
            best matches Some(l) ==> l.wf() && from_program(prog, l),
            plain ==> (best matches Some(l) ==> req_covers(l, insts, options)
                && l.run_class is None),
            rp ==> (best matches Some(l) ==> req_covers(l, insts, options)),
            first_lit ==> best is Some,
        decreases fuel,
    {
        fuel = fuel - 1;
        if pc >= prog.insts.len() {
            break;
        }
        proof {
            if plain {
                assert(plain_inst(insts[pc as int]));
            }
            if rp {
                assert(plain_inst(insts[pc as int]) || (insts[pc as int] matches Inst::Callout {
                    named,
                    name,
                    ..
                } && named && builtin_callout(name@) is Some) || insts[pc as int] is Repeat);
            }
        }
        match &prog.insts[pc] {
            Inst::Nop | Inst::Save(_) | Inst::Keep | Inst::Assert(_) | Inst::Callout { .. } => {
                proof {
                    if rp && !options.has(Options::ignorecase_spec()) {
                        lemma_reaches_step(insts, options, pc as int, pc + 1, dist.min, dist.max);
                    }
                }
                pc = pc + 1;
            },
            Inst::PushOptions(set, clear) => {
                opt_stack.push(cur);
                cur = cur.union(*set).difference(*clear);
                pc = pc + 1;
            },
            Inst::PopOptions => {
                match opt_stack.pop() {
                    Some(o) => cur = o,
                    None => {},
                }
                pc = pc + 1;
            },
            Inst::Jump(j) => {
                let j = *j as usize;
                if j <= pc {
                    break;
                }
                proof {
                    if rp && !options.has(Options::ignorecase_spec()) {
                        lemma_reaches_step(insts, options, pc as int, j as int, dist.min, dist.max);
                    }
                }
                pc = j;
            },
            // An atomic group is on every path, and its body ends with a
            // jump back to the spine, so simply walk into it.
            Inst::Atomic { body, .. } => pc = *body as usize,
            Inst::Look { body, after, behind, negative } => {
                // A positive look-ahead asserts its body at exactly this
                // position, so its literal is required too; being zero-width,
                // it leaves any preceding class run intact.
                if !*behind && !*negative && !cur.contains(Options::ignorecase()) {
                    let b = *body as usize;
                    if b < prog.insts.len() {
                        match &prog.insts[b] {
                            Inst::Char(c) => {
                                if *c <= 0x7F {
                                    let mut bytes: Vec<u8> = Vec::new();
                                    bytes.push(*c as u8);
                                    proof {
                                        assert(bytes@ =~= seq![*c as u8]);
                                        assert(inst_ascii_bytes(prog.insts@[b as int]) == Some(
                                            bytes@,
                                        ));
                                    }
                                    consider(&mut best, &bytes, dist, pending_run, prog);
                                }
                            },
                            Inst::Literal(v) => {
                                match ascii_bytes(v) {
                                    Some(bytes) => {
                                        proof {
                                            lemma_ascii_bytes(v@, bytes@);
                                            assert(inst_ascii_bytes(prog.insts@[b as int]) == Some(
                                                bytes@,
                                            ));
                                        }
                                        consider(&mut best, &bytes, dist, pending_run, prog)
                                    },
                                    None => {},
                                }
                            },
                            _ => {},
                        }
                    }
                }
                pc = *after as usize;
            },
            Inst::Char(c) => {
                if *c > 0x7F {
                    break;
                }
                let mut bytes: Vec<u8> = Vec::new();
                bytes.push(*c as u8);
                proof {
                    assert(bytes@ =~= seq![*c as u8]);
                    assert(inst_ascii_bytes(prog.insts@[pc as int]) == Some(bytes@));
                }
                if !cur.contains(Options::ignorecase()) {
                    proof {
                        if rp {
                            lemma_char_covers(insts, options, pc as int, *c, bytes@, dist.min, dist.max);
                        }
                    }
                    consider(&mut best, &bytes, dist, pending_run, prog);
                }
                let ghost d0 = dist;
                // Under case folding an ASCII letter can stand for a wider
                // character (KELVIN SIGN for `k`).
                let width: Option<u32> = if cur.contains(Options::ignorecase()) {
                    None
                } else {
                    Some(1)
                };
                dist = dist.add(1, width);
                proof {
                    if rp && !options.has(Options::ignorecase_spec()) {
                        lemma_char_advance(insts, options, pc as int, *c, d0.min, d0.max, dist.min, dist.max);
                    }
                }
                pending_run = None;
                pc = pc + 1;
            },
            Inst::Literal(v) => {
                let bytes = match ascii_bytes(v) {
                    Some(b) => b,
                    None => break,
                };
                let n: u32 = if bytes.len() > 0xFFFF_FFFF {
                    0xFFFF_FFFF
                } else {
                    bytes.len() as u32
                };
                proof {
                    lemma_ascii_bytes(v@, bytes@);
                    assert(inst_ascii_bytes(prog.insts@[pc as int]) == Some(bytes@));
                }
                if !cur.contains(Options::ignorecase()) {
                    proof {
                        if rp {
                            lemma_literal_covers(insts, options, pc as int, v@, bytes@, dist.min, dist.max);
                        }
                    }
                    consider(&mut best, &bytes, dist, pending_run, prog);
                }
                let ghost d0 = dist;
                let width: Option<u32> = if cur.contains(Options::ignorecase()) {
                    None
                } else {
                    Some(n)
                };
                dist = dist.add(n, width);
                proof {
                    if rp && !options.has(Options::ignorecase_spec()) {
                        lemma_literal_advance(insts, options, pc as int, v@, bytes@, n, d0.min, d0.max, dist.min, dist.max);
                    }
                }
                pending_run = None;
                pc = pc + 1;
            },
            Inst::Class { .. } | Inst::Any { .. } | Inst::SuperAny | Inst::TextSegment
            | Inst::GeneralNewline => {
                let ghost d0 = dist;
                dist = dist.add(1, None);
                proof {
                    if rp && !options.has(Options::ignorecase_spec()) {
                        lemma_one_char_advance(insts, options, pc as int, d0.min, d0.max, dist.min);
                    }
                }
                pending_run = None;
                pc = pc + 1;
            },
            Inst::Repeat { body, after, min, max, .. } => {
                let body = *body as usize;
                let after = *after as usize;
                let rmin = *min;
                let rmax = *max;
                // Bytes one iteration takes at least, and at most where that
                // is fixed: only a body of one instruction that goes straight
                // on to `after` has a width we can model. A case-sensitive
                // ASCII character or literal is exactly as wide as its text;
                // any other character is at least one byte and may be wider;
                // a longer body may match nothing at all.
                let icase = cur.contains(Options::ignorecase());
                let single = body_is_single(prog, body, after);
                let mut body_class = false;
                let (umin, umax): (u32, Option<u32>) = if single {
                    match &prog.insts[body] {
                        Inst::Char(c) => {
                            if *c <= 0x7F && !icase {
                                (1u32, Some(1u32))
                            } else {
                                (1u32, None)
                            }
                        },
                        Inst::Class { .. } => {
                            body_class = true;
                            (1u32, None)
                        },
                        Inst::Literal(v) => {
                            let n: u32 = if v.len() > 0xFFFF_FFFF {
                                0xFFFF_FFFFu32
                            } else {
                                v.len() as u32
                            };
                            let ascii = ascii_bytes(v).is_some();
                            proof {
                                assert(ascii == (ascii_lit(v@) is Some));
                            }
                            if !icase && v.len() <= 0xFFFF_FFFF && ascii {
                                (n, Some(n))
                            } else {
                                (n, None)
                            }
                        },
                        _ => (0u32, None),
                    }
                } else {
                    (0u32, None)
                };
                proof {
                    assert((umin, umax) == (if single_body(insts, body as int, after as int) {
                        unit_bounds(insts[body as int], cur.has(Options::ignorecase_spec()))
                    } else {
                        (0u32, None)
                    }));
                }
                let lo = sat_mul32(rmin, umin);
                let hi = match (rmax, umax) {
                    (Some(m), Some(w)) => {
                        if m >= rmin {
                            Some(sat_mul32(m, w))
                        } else {
                            Some(lo)
                        }
                    },
                    _ => None,
                };
                proof {
                    if rmax is Some && umax is Some && rmax->0 >= rmin {
                        assert(rmin * umin <= rmax->0 * umin) by (nonlinear_arith)
                            requires
                                rmin <= rmax->0,
                        ;
                    }
                }
                let ghost d0 = dist;
                dist = dist.add(lo, hi);
                proof {
                    if rp && !options.has(Options::ignorecase_spec()) {
                        lemma_repeat_advance(insts, options, pc as int, d0.min, d0.max, lo, hi, dist.min, dist.max);
                    }
                }
                // Remember an unbounded class run so the literal after it can
                // use the backward-extend trick.
                pending_run = if rmax.is_none() && rmin >= 1 && body_class {
                    Some(#[verifier::truncate] (body as u16))
                } else {
                    None
                };
                pc = after;
            },
            // Anything else could match arbitrary text or diverge.
            _ => break,
        }
    }
    best
}

/// The run a literal starting with `first` can be anchored to: the pending
/// run's class, when that class does not admit `first`.
spec fn run_anchor(prog: &Program, pending_run: Option<u16>, first: u8) -> Option<u16> {
    match pending_run {
        Some(pc) => if !admits(prog, pc as int, first) {
            Some(pc)
        } else {
            None
        },
        None => None,
    }
}

/// A candidate literal of `len` bytes, anchored to a run or not, at a
/// bounded distance or not, beats the one held: longer first, then anchored
/// to a run, then bounded.
spec fn lit_beats(held: Option<ReqLit>, len: nat, run: bool, bounded: bool) -> bool {
    match held {
        None => true,
        Some(b) => len > b.bytes@.len() || (len == b.bytes@.len() && ((run && b.run_class is None)
            || (run == b.run_class is Some && bounded && b.max_dist is None))),
    }
}

/// Keep `bytes` at `dist` as the required literal when it is usable and
/// better than the one held.
fn consider(
    best: &mut Option<ReqLit>,
    bytes: &Vec<u8>,
    dist: Dist,
    pending_run: Option<u16>,
    prog: &Program,
)
    requires
        dist.ok(),
        *old(best) matches Some(l) ==> l.wf() && from_program(prog, l),
        bytes@.len() > 0 ==> exists|pc: int|
            0 <= pc < prog.insts@.len() && #[trigger] inst_ascii_bytes(prog.insts@[pc]) == Some(
                bytes@,
            ),
    ensures
        *final(best) matches Some(l) ==> l.wf() && from_program(prog, l),
        *final(best) == *old(best) || (*final(best) matches Some(l) && l.bytes@ == bytes@
            && l.min_dist == dist.min && l.max_dist == dist.max && (pending_run is None
            ==> l.run_class is None)),
        ({
            let rc = if bytes@.len() > 0 {
                run_anchor(prog, pending_run, bytes@[0])
            } else {
                None
            };
            if bytes@.len() > 0 && !(dist.max is None && rc is None) && lit_beats(
                *old(best),
                bytes@.len(),
                rc is Some,
                dist.max is Some,
            ) {
                *final(best) matches Some(l) && l.bytes@ == bytes@ && l.min_dist == dist.min
                    && l.max_dist == dist.max && l.run_class == rc
            } else {
                *final(best) == *old(best)
            }
        }),
{
    if bytes.len() == 0 {
        return;
    }
    // A run-anchored literal is only usable when its first byte breaks the run.
    let run_class = match pending_run {
        Some(pc) => if !class_admits_byte(prog, pc as usize, bytes[0]) {
            Some(pc)
        } else {
            None
        },
        None => None,
    };
    // An unbounded distance is only usable with the backward-extend trick.
    if dist.max.is_none() && run_class.is_none() {
        return;
    }
    // Prefer a longer literal (rarer), then one anchored to a run, then one
    // at a bounded distance.
    let better = match best {
        None => true,
        Some(b) => {
            let (nl, ol) = (bytes.len(), b.bytes.len());
            let (nr, or) = (run_class.is_some(), b.run_class.is_some());
            let (nm, om) = (dist.max.is_some(), b.max_dist.is_some());
            nl > ol || (nl == ol && ((nr && !or) || (nr == or && nm && !om)))
        },
    };
    if better {
        *best = Some(
            ReqLit { bytes: bytes.clone(), min_dist: dist.min, max_dist: dist.max, run_class },
        );
    }
}

/// `needle` occurs in `hay` at `p`.
pub open spec fn occurs_at(hay: Seq<u8>, needle: Seq<u8>, p: int) -> bool {
    0 <= p && p + needle.len() <= hay.len() && hay.subrange(p, p + needle.len()) == needle
}

/// Offset of the first occurrence of `needle` in `hay`, or `None` (also for
/// an empty needle).
pub fn find_bytes(hay: &[u8], needle: &[u8]) -> (r: Option<usize>)
    ensures
        r matches Some(p) ==> needle@.len() > 0 && occurs_at(hay@, needle@, p as int) && forall|
            q: int,
        | 0 <= q < p ==> !occurs_at(hay@, needle@, q),
        r is None ==> needle@.len() == 0 || forall|q: int|
            0 <= q <= hay@.len() ==> !occurs_at(hay@, needle@, q),
{
    if needle.len() == 0 || needle.len() > hay.len() {
        return None;
    }
    let n = needle.len();
    let hl = hay.len();
    let last = hl - n;
    let mut i: usize = 0;
    while i <= last
        invariant
            n == needle@.len(),
            n > 0,
            hl == hay@.len(),
            last + n == hay@.len(),
            forall|q: int| 0 <= q < i ==> !occurs_at(hay@, needle@, q),
        decreases last + 1 - i,
    {
        let mut k: usize = 0;
        while k < n && hay[i + k] == needle[k]
            invariant
                k <= n,
                i <= last,
                n == needle@.len(),
                hl == hay@.len(),
                last + n == hay@.len(),
                forall|j: int| 0 <= j < k ==> hay@[i + j] == needle@[j],
            decreases n - k,
        {
            k = k + 1;
        }
        if k == n {
            proof {
                assert(hay@.subrange(i as int, i + n) =~= needle@);
            }
            return Some(i);
        }
        proof {
            assert(hay@.subrange(i as int, i + n)[k as int] != needle@[k as int]);
        }
        i = i + 1;
    }
    None
}

/// Start of the maximal run of admitted bytes ending at `at`, never before
/// `floor`; `floor` itself when `class_pc` is no class.
pub fn class_run_start(prog: &Program, class_pc: usize, hay: &[u8], floor: usize, at: usize) -> (r:
    usize)
    requires
        at <= hay@.len(),
    ensures
        !is_class_at(prog, class_pc as int) ==> r == floor,
        is_class_at(prog, class_pc as int) ==> {
            &&& (floor <= at ==> floor <= r <= at)
            &&& (floor > at ==> r == at)
            &&& forall|k: int| r <= k < at ==> admits(prog, class_pc as int, #[trigger] hay@[k])
            &&& (r > floor ==> !admits(prog, class_pc as int, hay@[r - 1]))
        },
{
    if class_of(prog, class_pc).is_none() {
        return floor;
    }
    let mut s = at;
    while s > floor
        invariant
            s <= at,
            at <= hay@.len(),
            floor <= at ==> floor <= s,
            floor > at ==> s == at,
            forall|k: int| s <= k < at ==> admits(prog, class_pc as int, #[trigger] hay@[k]),
        ensures
            s <= at,
            floor <= at ==> floor <= s,
            floor > at ==> s == at,
            forall|k: int| s <= k < at ==> admits(prog, class_pc as int, #[trigger] hay@[k]),
            s > floor ==> !admits(prog, class_pc as int, hay@[s - 1]),
        decreases s,
    {
        let b = hay[s - 1];
        if !class_admits_byte(prog, class_pc, b) {
            break;
        }
        s = s - 1;
    }
    s
}

} // verus!
