//! Backtracking VM: bytecode to match and search.
//!
//! Oniguruma is a backtracking NFA and so is this. The mitigations for that
//! are the limits on `MatchParam`, not a Thompson rewrite.

pub mod classes;
pub mod vm;
pub mod analyze;
pub mod search;
pub mod plain;

use vstd::prelude::*;
use core::ops::Range;
use super::callout::Callouts;
use super::encoding::Encoding;
use super::opcode::{plan_bit, Inst, Program, SimpleBody};
use super::param::MatchParam;
use super::region::{CaptureTree, Region};
use super::syntax::Options;
use super::unicode::UserProperty;
use self::analyze::{ends_at, follow_ok, passes_to, plans_agree, reads_first};
use self::vm::run_error;
use self::plain::{builtin_callout, first_end, first_end_from, lit_bytes_agree, plain_inst, plain_program};

verus! {

/// Maximum VM recursion depth: a native-stack bound. Exceeding it is a
/// `MatchStackLimit` error, never an abort.
pub const MAX_RUN_DEPTH: u32 = 300;

/// Slot `j` of the flat capture slots, when it exists.
pub open spec fn slot_at(caps: Seq<Option<usize>>, j: int) -> Option<usize> {
    if 0 <= j < caps.len() {
        caps[j]
    } else {
        None
    }
}

/// Group `i` as a region reports it: both of its slots set, in order and
/// within `len`; otherwise unset.
pub open spec fn group_range(caps: Seq<Option<usize>>, i: int, len: nat) -> Option<Range<usize>> {
    match (slot_at(caps, 2 * i), slot_at(caps, 2 * i + 1)) {
        (Some(a), Some(b)) => if a <= b && b <= len {
            Some(a..b)
        } else {
            None
        },
        _ => None,
    }
}

/// A repetition the matcher runs as its meaning (`rep_end`) says: one whose
/// body it runs as a sub-program (possessive, writing captures, or of more
/// than one instruction), or a one-character or one-class body that its
/// shape names, followed straight by `after`; for a class, what its shape
/// claims about what follows `after` holds where a greedy run skips lengths
/// by it.
pub open spec fn rep_shape_ok(prog: &Program, body: int, after: int, greedy: bool, possessive: bool) -> bool {
    0 <= body < prog.repeat_shapes@.len() ==> {
        let sh = prog.repeat_shapes@[body];
        ||| possessive || sh.writes_caps || sh.simple is Complex
        ||| sh.simple matches SimpleBody::Char(w) && body < prog.insts@.len() && prog.insts@[body]
            == Inst::Char(w) && ends_at(prog.insts@, body, after)
        ||| sh.simple matches SimpleBody::Class(cpc) && cpc as int == body && body
            < prog.insts@.len() && prog.insts@[body] is Class && ends_at(prog.insts@, body, after)
            && class_follow_ok(prog, body, after, greedy)
    }
}

/// The class at `body` cannot match what must come first after `after`: a
/// case-sensitive ASCII character that the class's bitmap leaves out, reached
/// from `after` through steps that read nothing.
pub open spec fn follow_disjoint_ok(prog: &Program, body: int, after: int) -> bool {
    &&& 0 <= body < prog.class_plans@.len()
    &&& prog.class_plans@[body] matches Some(p) && !p.options.has(Options::ignorecase_spec())
        && exists|pc: int, c: u32|
        passes_to(prog.insts@, after, pc) && 0 <= pc < prog.insts@.len() && #[trigger] reads_first(
            prog.insts@[pc],
            c,
        ) && !plan_bit(p.ascii, c)
}

/// `fb` is the first byte of an ASCII character that must come right after
/// `after`, reached through steps that read nothing; `icase` says whether
/// the class at `body` folds case.
pub open spec fn follow_byte_ok(prog: &Program, body: int, after: int, fb: u8, icase: bool) -> bool {
    &&& exists|pc: int|
        passes_to(prog.insts@, after, pc) && 0 <= pc < prog.insts@.len() && #[trigger] reads_first(
            prog.insts@[pc],
            fb as u32,
        )
    &&& icase == (match (if 0 <= body < prog.class_plans@.len() {
        prog.class_plans@[body]
    } else {
        None
    }) {
        Some(p) => p.options.has(Options::ignorecase_spec()),
        None => false,
    })
}

/// What the shape of the class repetition at `body` claims about what
/// follows `after` holds, where a greedy run relies on it.
pub open spec fn class_follow_ok(prog: &Program, body: int, after: int, greedy: bool) -> bool {
    0 <= body < prog.repeat_shapes@.len() && greedy ==> follow_ok(
        prog,
        prog.repeat_shapes@[body],
        body,
        after,
    )
}

/// No other repetition of `insts` has its body where the one at `pc` has.
pub open spec fn unique_body(insts: Seq<Inst>, pc: int) -> bool {
    forall|q: int|
        0 <= q < insts.len() && q != pc && #[trigger] insts[q] is Repeat ==> insts[q]->Repeat_body
            != insts[pc]->Repeat_body
}

/// Every repetition whose body is its own has the shape the matcher relies
/// on.
pub open spec fn shapes_ok(prog: &Program) -> bool {
    forall|pc: int|
        0 <= pc < prog.insts@.len() && #[trigger] prog.insts@[pc] is Repeat && unique_body(
            prog.insts@,
            pc,
        ) ==> rep_shape_ok(
            prog,
            prog.insts@[pc]->Repeat_body as int,
            prog.insts@[pc]->Repeat_after as int,
            prog.insts@[pc]->Repeat_greedy,
            prog.insts@[pc]->Repeat_possessive,
        )
}

/// Every instruction is plain, a built-in callout that only fails, counts
/// or records a skip point, or a repetition.
pub open spec fn rep_syntactic(insts: Seq<Inst>) -> bool {
    forall|pc: int|
        0 <= pc < insts.len() ==> #[trigger] plain_inst(insts[pc]) || (insts[pc] matches Inst::Callout {
            named,
            name,
            ..
        } && named && builtin_callout(name@) is Some) || insts[pc] is Repeat
}

/// Where the shapes are as the matcher relies on, a forward program of
/// plain steps, built-in callouts and repetitions is one the matcher runs
/// as its meaning says.
pub proof fn lemma_rep_syntactic(prog: &Program)
    requires
        prog.forward(),
        shapes_ok(prog),
        rep_syntactic(prog.insts@),
    ensures
        rep_program(prog),
{
    let insts = prog.insts@;
    let n = insts.len() as int;
    assert forall|pc: int| 0 <= pc < n implies #[trigger] rep_inst_ok(prog, insts[pc]) by {
        assert(plain_inst(insts[pc]) || (insts[pc] matches Inst::Callout { named, name, .. } && named
            && builtin_callout(name@) is Some) || insts[pc] is Repeat);
        if insts[pc] is Repeat {
            assert(super::opcode::inst_forward(insts[pc], pc, n));
            assert forall|q: int| 0 <= q < n && q != pc && #[trigger] insts[q] is Repeat implies insts[q]->Repeat_body
                != insts[pc]->Repeat_body by {
                assert(super::opcode::inst_forward(insts[q], q, n));
            }
            assert(unique_body(insts, pc));
        }
    }
}

/// An instruction of the plain fragment, a repetition `rep_shape_ok`
/// admits, or a built-in callout that only fails, counts or records a skip
/// point.
pub open spec fn rep_inst_ok(prog: &Program, inst: Inst) -> bool {
    ||| plain_inst(inst)
    ||| inst matches Inst::Callout { named, name, .. } && named && builtin_callout(name@) is Some
    ||| inst matches Inst::Repeat { body, after, greedy, possessive, .. } && rep_shape_ok(
        prog,
        body as int,
        after as int,
        greedy,
        possessive,
    )
}

/// Every instruction of `prog` is plain or an admitted repetition.
pub open spec fn rep_program(prog: &Program) -> bool {
    forall|pc: int| 0 <= pc < prog.insts@.len() ==> #[trigger] rep_inst_ok(prog, prog.insts@[pc])
}

/// A plain program has no repetition at all.
pub proof fn lemma_plain_rep_program(prog: &Program)
    requires
        plain_program(prog.insts@),
    ensures
        rep_program(prog),
{
    assert forall|pc: int| 0 <= pc < prog.insts@.len() implies #[trigger] rep_inst_ok(
        prog,
        prog.insts@[pc],
    ) by {
        assert(plain_inst(prog.insts@[pc]));
    }
}

/// The state of one search over one haystack.
pub struct Engine<'a, H: Callouts> {
    pub hay: &'a [u8],
    pub enc: Encoding,
    pub prog: &'a Program,
    pub options: Options,
    /// Options as compiled, so an attempt can reset after inline `(?i)`.
    pub base_options: Options,
    pub stack_limit: u32,
    pub retry_limit_in_match: u64,
    pub retry_limit_in_search: u64,
    pub subexp_call_limit: u32,
    /// The `(*COUNT)` slot, handed back to the caller's `MatchParam`.
    pub count: u32,
    pub hooks: &'a H,
    pub user_props: &'a Vec<UserProperty>,
    /// Flat capture slots: `2*g` is group `g`'s start, `2*g + 1` its end.
    pub captures: Vec<Option<usize>>,
    pub option_stack: Vec<Options>,
    pub keep: usize,
    pub search_origin: usize,
    pub hay_start: usize,
    pub hay_end: usize,
    pub retry_match: u64,
    pub retry_search: u64,
    pub calls: u32,
    pub skip_to: Option<usize>,
    pub hist: Vec<(usize, usize, usize)>,
    /// Can anything in this program write a capture slot?
    pub writes_caps: bool,
    /// Class bitmaps are usable.
    pub plans_ok: bool,
    pub ascii_fast: bool,
    pub enc_min_len: usize,
    /// The search only offers line starts, so a `^` at the attempt's own start
    /// is already known to hold.
    pub bol_guaranteed: bool,
    /// Offset this attempt began at.
    pub attempt_start: usize,
    /// Current `run_stop` recursion depth.
    pub rdepth: u32,
}

impl<'a, H: Callouts> Engine<'a, H> {
    /// The program only continues forward, the live window lies in the
    /// haystack, the recursion depth is within its bound, the encoding facts
    /// read once are the encoding's, and the program's class bitmaps and
    /// literal bytes agree with its instructions.
    pub open spec fn inv(&self) -> bool {
        &&& self.prog.forward()
        &&& self.prog.capture_count >= 1
        &&& self.hay_start == 0
        &&& self.hay_end <= self.hay@.len()
        &&& self.rdepth <= MAX_RUN_DEPTH
        &&& self.ascii_fast == self.enc.ascii_transparent_spec()
        &&& self.enc_min_len == self.enc.min_len_spec()
        &&& (self.skip_to matches Some(s) ==> s <= self.hay@.len())
        &&& self.keep <= self.hay@.len()
        &&& plans_agree(self.prog.insts@, self.prog.class_plans@, self.enc, self.user_props@)
        &&& lit_bytes_agree(self.prog.insts@, self.prog.literal_bytes@, self.enc)
        &&& (self.bol_guaranteed ==> !self.base_options.has(Options::notbol_spec())
            && self.enc.ascii_transparent_spec() && (self.attempt_start == 0
            || (0 < self.attempt_start <= self.hay@.len() && self.hay@[self.attempt_start - 1]
            == 0x0a)))
    }

    /// Where the search vouches for line starts, `NOTBOL` is off.
    pub open spec fn anchors_ok(&self) -> bool {
        self.bol_guaranteed ==> !self.options.has(Options::notbol_spec())
    }

    /// The program is of the plain fragment.
    pub open spec fn plain(&self) -> bool {
        plain_program(self.prog.insts@)
    }

    /// The program is plain, or has repetitions too that the matcher runs as
    /// their meaning says.
    pub open spec fn rep_plain(&self) -> bool {
        rep_program(self.prog)
    }

    /// The first match of a repetition body from `body` up to `after`, as a
    /// function of where it starts.
    pub open spec fn body_fn(&self, body: int, after: int) -> spec_fn(int) -> Option<int> {
        first_end_from(
            self.prog.insts@,
            self.enc,
            self.hay@,
            self.hay_end as int,
            self.options,
            self.user_props@,
            body,
            Some(after as usize),
        )
    }

    /// The first match of what follows a repetition, from `after`, as a
    /// function of where it starts.
    pub open spec fn rest_fn(&self, after: int, stop: Option<usize>) -> spec_fn(int) -> Option<int> {
        first_end_from(
            self.prog.insts@,
            self.enc,
            self.hay@,
            self.hay_end as int,
            self.options,
            self.user_props@,
            after,
            stop,
        )
    }

    /// Where the first match from `pc` at `pos` ends, under this engine's
    /// haystack, window, encoding, options and user properties.
    pub open spec fn plain_end(&self, pc: int, pos: int, stop: Option<usize>) -> Option<int> {
        first_end(
            self.prog.insts@,
            self.enc,
            self.hay@,
            self.hay_end as int,
            self.options,
            self.user_props@,
            pc,
            pos,
            stop,
        )
    }

    /// `next` is `self` after a sub-match: same haystack, program, window,
    /// depth, user properties and compiled options, still consistent.
    pub open spec fn frame(&self, next: &Self) -> bool {
        &&& next.hay@ == self.hay@
        &&& next.prog == self.prog
        &&& next.enc == self.enc
        &&& next.hay_start == self.hay_start
        &&& next.hay_end == self.hay_end
        &&& next.rdepth == self.rdepth
        &&& next.ascii_fast == self.ascii_fast
        &&& next.enc_min_len == self.enc_min_len
        &&& next.user_props == self.user_props
        &&& next.base_options == self.base_options
        &&& next.bol_guaranteed == self.bol_guaranteed
        &&& next.retry_limit_in_match == self.retry_limit_in_match
        &&& next.retry_limit_in_search == self.retry_limit_in_search
        &&& next.inv()
    }

    /// No retry limit is set, and the run nesting left covers `n` more
    /// levels: a plain program then runs to an answer.
    pub open spec fn unlimited_for(&self, n: int) -> bool {
        &&& self.retry_limit_in_match == 0
        &&& self.retry_limit_in_search == 0
        &&& self.rdepth + n <= MAX_RUN_DEPTH
    }

    /// Build one engine for a whole search.
    pub fn new(
        prog: &'a Program,
        hay: &'a [u8],
        enc: Encoding,
        options: Options,
        param: &MatchParam,
        hooks: &'a H,
        user_props: &'a Vec<UserProperty>,
        search_origin: usize,
    ) -> (e: Self)
        requires
            prog.forward(),
            prog.capture_count >= 1,
            plans_agree(prog.insts@, prog.class_plans@, enc, user_props@),
            lit_bytes_agree(prog.insts@, prog.literal_bytes@, enc),
        ensures
            e.inv(),
            e.user_props == user_props,
            e.options == options,
            e.base_options == options,
            e.captures@.len() >= 2,
            !e.bol_guaranteed,
            e.attempt_start == 0,
            e.hay@ == hay@,
            e.prog == prog,
            e.enc == enc,
            e.hay_start == 0,
            e.hay_end == hay@.len(),
            e.rdepth == 0,
            e.count == param.count,
            e.skip_to is None,
            e.retry_limit_in_match == param.retry_limit_in_match,
            e.retry_limit_in_search == param.retry_limit_in_search,
    {
        let mut captures: Vec<Option<usize>> = Vec::new();
        let n = if prog.capture_count <= usize::MAX / 2 {
            prog.capture_count * 2
        } else {
            usize::MAX
        };
        let mut i: usize = 0;
        while i < n
            invariant
                i <= n,
                captures@.len() == i,
            decreases n - i,
        {
            captures.push(None);
            i = i + 1;
        }
        Engine {
            hay,
            enc,
            prog,
            options,
            base_options: options,
            stack_limit: param.stack_limit,
            retry_limit_in_match: param.retry_limit_in_match,
            retry_limit_in_search: param.retry_limit_in_search,
            subexp_call_limit: param.subexp_call_limit,
            count: param.count,
            hooks,
            user_props,
            captures,
            option_stack: Vec::new(),
            keep: 0,
            search_origin,
            hay_start: 0,
            hay_end: hay.len(),
            retry_match: 0,
            retry_search: 0,
            calls: 0,
            skip_to: None,
            hist: Vec::new(),
            writes_caps: prog.capture_count > 1,
            plans_ok: true,
            ascii_fast: enc.ascii_transparent(),
            enc_min_len: enc.min_len(),
            bol_guaranteed: false,
            attempt_start: 0,
            rdepth: 0,
        }
    }

    /// Reset the per-attempt state for an attempt at `at`. The search-wide
    /// retry budget survives.
    pub fn reset_at(&mut self, at: usize)
        requires
            old(self).inv(),
            at <= old(self).hay@.len(),
            old(self).bol_guaranteed ==> at == 0 || old(self).hay@[at - 1] == 0x0a,
        ensures
            final(self).inv(),
            final(self).hay@ == old(self).hay@,
            final(self).prog == old(self).prog,
            final(self).enc == old(self).enc,
            final(self).hay_start == 0,
            final(self).hay_end == old(self).hay@.len(),
            final(self).rdepth == 0,
            final(self).skip_to is None,
            final(self).count == old(self).count,
            final(self).options == old(self).base_options,
            final(self).base_options == old(self).base_options,
            final(self).keep == at,
            final(self).user_props == old(self).user_props,
            final(self).captures@.len() == old(self).captures@.len(),
            final(self).bol_guaranteed == old(self).bol_guaranteed,
            final(self).retry_limit_in_match == old(self).retry_limit_in_match,
            final(self).retry_limit_in_search == old(self).retry_limit_in_search,
    {
        let mut i: usize = 0;
        while i < self.captures.len()
            invariant
                i <= self.captures@.len(),
                self.inv(),
                self.hay@ == old(self).hay@,
                self.prog == old(self).prog,
                self.enc == old(self).enc,
                self.count == old(self).count,
                self.rdepth == old(self).rdepth,
                self.hay_start == old(self).hay_start,
                self.hay_end == old(self).hay_end,
                self.skip_to == old(self).skip_to,
                self.base_options == old(self).base_options,
                self.user_props == old(self).user_props,
                self.captures@.len() == old(self).captures@.len(),
                self.bol_guaranteed == old(self).bol_guaranteed,
                self.attempt_start == old(self).attempt_start,
                self.retry_limit_in_match == old(self).retry_limit_in_match,
                self.retry_limit_in_search == old(self).retry_limit_in_search,
            decreases self.captures@.len() - i,
        {
            self.captures.set(i, None);
            i = i + 1;
        }
        if self.captures.len() > 0 {
            self.captures.set(0, Some(at));
        }
        self.option_stack.clear();
        self.hist.clear();
        self.options = self.base_options;
        self.hay_start = 0;
        self.hay_end = self.hay.len();
        self.keep = at;
        self.attempt_start = at;
        self.rdepth = 0;
        self.retry_match = 0;
        self.calls = 0;
        self.skip_to = None;
    }

    /// Match at `at`: the region, or `None`.
    pub fn attempt(&mut self, at: usize) -> (r: Result<Option<Region>, super::error::Error>)
        requires
            old(self).inv(),
            at <= old(self).hay@.len(),
            old(self).bol_guaranteed ==> at == 0 || old(self).hay@[at - 1] == 0x0a,
        ensures
            r matches Err(e) ==> run_error(e.kind),
            final(self).inv(),
            final(self).hay@ == old(self).hay@,
            final(self).prog == old(self).prog,
            final(self).enc == old(self).enc,
            final(self).hay_end == old(self).hay@.len(),
            r matches Ok(Some(reg)) ==> reg.wf(old(self).hay@.len()) && reg.captures@.len()
                == old(self).prog.capture_count,
            final(self).base_options == old(self).base_options,
            final(self).user_props == old(self).user_props,
            final(self).bol_guaranteed == old(self).bol_guaranteed,
            old(self).plain() ==> final(self).captures@.len() == old(self).captures@.len()
                && final(self).skip_to is None,
            old(self).plain() && old(self).captures@.len() >= 2 ==> match r {
                Ok(Some(reg)) => reg.span().0 == at && first_end(
                    old(self).prog.insts@,
                    old(self).enc,
                    old(self).hay@,
                    old(self).hay@.len() as int,
                    old(self).base_options,
                    old(self).user_props@,
                    0,
                    at as int,
                    None,
                ) == Some(reg.span().1 as int),
                Ok(None) => first_end(
                    old(self).prog.insts@,
                    old(self).enc,
                    old(self).hay@,
                    old(self).hay@.len() as int,
                    old(self).base_options,
                    old(self).user_props@,
                    0,
                    at as int,
                    None,
                ) is None,
                Err(_) => true,
            },
            old(self).rep_plain() ==> final(self).captures@.len() == old(self).captures@.len(),
            old(self).rep_plain() && old(self).captures@.len() >= 2 ==> match r {
                Ok(Some(reg)) => reg.span().0 == at && first_end(
                    old(self).prog.insts@,
                    old(self).enc,
                    old(self).hay@,
                    old(self).hay@.len() as int,
                    old(self).base_options,
                    old(self).user_props@,
                    0,
                    at as int,
                    None,
                ) == Some(reg.span().1 as int),
                Ok(None) => first_end(
                    old(self).prog.insts@,
                    old(self).enc,
                    old(self).hay@,
                    old(self).hay@.len() as int,
                    old(self).base_options,
                    old(self).user_props@,
                    0,
                    at as int,
                    None,
                ) is None,
                Err(_) => true,
            },
            final(self).retry_limit_in_match == old(self).retry_limit_in_match,
            final(self).retry_limit_in_search == old(self).retry_limit_in_search,
            old(self).plain() && old(self).retry_limit_in_match == 0 && old(self).retry_limit_in_search
                == 0 && old(self).prog.insts@.len() < MAX_RUN_DEPTH ==> r is Ok,
    {
        self.reset_at(at);
        let ok = self.run(0, at)?;
        match ok {
            Some(end) => {
                if self.captures.len() > 1 {
                    self.captures.set(1, Some(end));
                    self.captures.set(0, Some(self.keep));
                }
                Ok(Some(self.to_region()))
            },
            None => Ok(None),
        }
    }

    /// The slot value at `i`, when there is one.
    pub fn slot(&self, i: usize) -> (r: Option<usize>)
        ensures
            r == (if i < self.captures@.len() {
                self.captures@[i as int]
            } else {
                None
            }),
    {
        if i < self.captures.len() {
            self.captures[i]
        } else {
            None
        }
    }

    /// The region the capture slots describe.
    pub fn to_region(&self) -> (r: Region)
        requires
            self.inv(),
        ensures
            r.wf(self.hay@.len()),
            r.captures@.len() == self.prog.capture_count,
            forall|i: int|
                0 <= i < r.captures@.len() ==> #[trigger] r.captures@[i] == group_range(
                    self.captures@,
                    i,
                    self.hay@.len(),
                ),
    {
        let n = self.prog.capture_count;
        let hl = self.hay.len();
        let mut r = Region::with_names(n, self.prog.has_named);
        let mut i: usize = 0;
        while i < n
            invariant
                i <= n,
                n == self.prog.capture_count,
                hl == self.hay@.len(),
                r.captures@.len() == n,
                r.names@.len() == 0 || r.names@.len() == n,
                forall|j: int|
                    0 <= j < n ==> (#[trigger] r.captures@[j] matches Some(g) ==> g.start <= g.end
                        <= hl),
                forall|j: int|
                    0 <= j < i ==> #[trigger] r.captures@[j] == group_range(self.captures@, j, hl as nat),
            decreases n - i,
        {
            let a = if i <= usize::MAX / 2 { self.slot(2 * i) } else { None };
            let b = if i < usize::MAX / 2 { self.slot(2 * i + 1) } else { None };
            let g: Option<Range<usize>> = match (a, b) {
                (Some(a), Some(b)) => if a <= b && b <= hl {
                    Some(a..b)
                } else {
                    None
                },
                _ => None,
            };
            proof {
                assert(self.captures@.len() == self.captures.len());
                assert(a == slot_at(self.captures@, 2 * i));
                assert(b == slot_at(self.captures@, 2 * i + 1));
                assert(g == group_range(self.captures@, i as int, hl as nat));
            }
            let ghost before = r.captures@;
            r.captures.set(i, g);
            proof {
                assert forall|j: int| 0 <= j < i + 1 implies #[trigger] r.captures@[j] == group_range(
                    self.captures@,
                    j,
                    hl as nat,
                ) by {
                    if j < i {
                        assert(r.captures@[j] == before[j]);
                    }
                }
            }
            if self.prog.has_named && i < r.names.len() {
                let nm: Option<String> = if i < self.prog.names.len() {
                    self.prog.names[i].clone()
                } else {
                    None
                };
                r.names.set(i, nm);
            }
            i = i + 1;
        }
        r.history = self.build_history();
        r
    }

    /// The capture-history tree of the recorded `(?@...)` spans that lie
    /// inside the whole match.
    pub fn build_history(&self) -> (r: Option<CaptureTree>)
        ensures
            r is Some <==> (self.hist@.len() > 0 && self.captures@.len() >= 2
                && self.captures@[0] is Some && self.captures@[1] is Some),
            r matches Some(t) ==> t.group == 0 && Some(t.range.start) == self.captures@[0]
                && Some(t.range.end) == self.captures@[1] && t.nested(),
    {
        if self.hist.len() == 0 {
            return None;
        }
        let a = match self.slot(0) {
            Some(a) => a,
            None => return None,
        };
        let b = match self.slot(1) {
            Some(b) => b,
            None => return None,
        };
        let mut root = CaptureTree { group: 0, range: a..b, children: Vec::new() };
        let mut k: usize = 0;
        proof {
            assert(root.children@.len() == 0);
        }
        while k < self.hist.len()
            invariant
                k <= self.hist@.len(),
                root.group == 0,
                root.range.start == a,
                root.range.end == b,
                root.nested(),
            decreases self.hist@.len() - k,
        {
            let (g, s, e) = self.hist[k];
            if !(s < a || e > b) {
                insert_hist(&mut root, g, s..e);
            }
            k = k + 1;
        }
        Some(root)
    }
}

/// Put span `range` of group `g` under the deepest node that contains it.
fn insert_hist(node: &mut CaptureTree, g: usize, range: Range<usize>)
    requires
        old(node).nested(),
        old(node).range.start <= range.start,
        range.end <= old(node).range.end,
    ensures
        final(node).nested(),
        final(node).range == old(node).range,
        final(node).group == old(node).group,
        final(node).size() == old(node).size() + 1,
        final(node).holds(g, range.start, range.end),
    decreases *old(node),
{
    let mut children: Vec<CaptureTree> = Vec::new();
    std::mem::swap(&mut children, &mut node.children);
    let ghost kids = children@;
    let ghost ra = range.start;
    let ghost rb = range.end;
    let mut i: usize = 0;
    while i < children.len()
        invariant
            i <= children@.len(),
            children@ == kids,
            kids == old(node).children@,
            ra == range.start,
            rb == range.end,
            node.range == old(node).range,
            node.group == old(node).group,
            old(node).nested(),
        decreases children@.len() - i,
    {
        if children[i].range.start <= range.start && range.end <= children[i].range.end {
            let mut child = children.remove(i);
            proof {
                assert(decreases_to!(*old(node) => old(node).children@[i as int]));
                assert(child == kids[i as int]);
                assert(kids[i as int].nested());
            }
            let ghost old_child = child;
            insert_hist(&mut child, g, range);
            children.insert(i, child);
            proof {
                assert(children@ == kids.update(i as int, child));
                assert forall|j: int| 0 <= j < children@.len() implies {
                    &&& node.range.start <= (#[trigger] children@[j]).range.start
                    &&& children@[j].range.end <= node.range.end
                    &&& children@[j].nested()
                } by {
                    if j != i {
                        assert(children@[j] == kids[j]);
                    }
                }
            }
            node.children = children;
            proof {
                old(node).lemma_children_size_update(&*node, 0, i as int);
                node.lemma_children_hold(0, i as int, g, ra, rb);
            }
            return;
        }
        i = i + 1;
    }
    let leaf = CaptureTree { group: g, range, children: Vec::new() };
    proof {
        assert(leaf.children@.len() == 0);
        assert(leaf.nested());
    }
    children.push(leaf);
    proof {
        assert forall|j: int| 0 <= j < children@.len() implies {
            &&& node.range.start <= (#[trigger] children@[j]).range.start
            &&& children@[j].range.end <= node.range.end
            &&& children@[j].nested()
        } by {
            if j < kids.len() {
                assert(children@[j] == kids[j]);
            }
        }
    }
    node.children = children;
    proof {
        assert(leaf.size() == 1);
        assert(leaf.holds(g, ra, rb));
        old(node).lemma_children_size_push(&*node, 0, leaf);
        node.lemma_children_hold(0, kids.len() as int, g, ra, rb);
    }
}

/// The position after the character at `pos` (one byte when it cannot be
/// read), never past the end.
pub fn next_pos(enc: Encoding, hay: &[u8], pos: usize) -> (r: usize)
    ensures
        pos < hay@.len() ==> pos < r,
        pos >= hay@.len() ==> r == hay@.len(),
        enc.max_len_spec() == 1 && pos < hay@.len() ==> r == pos + 1,
{
    if pos >= hay.len() {
        return hay.len();
    }
    if enc.max_len() == 1 {
        return pos + 1;
    }
    if hay[pos] < 0x80 && enc.min_len() == 1 {
        return pos + 1;
    }
    match enc.mbc_len(&hay[pos..hay.len()]) {
        Ok(n) => if n > 0 && n <= usize::MAX - pos {
            pos + n
        } else {
            pos + 1
        },
        Err(_) => pos + 1,
    }
}

} // verus!
