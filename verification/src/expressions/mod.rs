//! An Oniguruma-style regular-expression engine: parse, compile to bytecode,
//! run a backtracking VM. Encoding and syntax are values on each regex.

pub mod encoding;
pub mod error;
pub mod syntax;
pub mod unicode;
pub mod callout;
pub mod count;
pub mod param;
pub mod ast;
pub mod opcode;
pub mod optimize;
pub mod region;
pub mod parse;
pub mod compile;
pub mod meaning;
pub mod exec;
pub mod scan;
pub mod set;
pub mod compat;
pub mod ops;

pub use self::callout::{CalloutCtx, CalloutDir, CalloutResult, Callouts, NoCallouts};
pub use self::encoding::Encoding;
pub use self::error::{Error, ErrorKind};
pub use self::ops::{find_all, find_all_str, format_matches, is_match_str};
pub use self::param::{
    MatchParam, DEFAULT_MATCH_STACK_LIMIT, DEFAULT_RETRY_LIMIT_IN_MATCH, DEFAULT_RETRY_LIMIT_IN_SEARCH,
};
pub use self::region::{CaptureTree, Region};
pub use self::scan::scan;
pub use self::set::RegSet;
pub use self::syntax::{sql_syntax, Options, Syntax};
pub use self::optimize::ReqLit;
pub use self::unicode::UserProperty;

use vstd::prelude::*;
use vstd::string::StringSliceAdditionalSpecFns;
use self::compile::compile;
use self::exec::analyze::{
    analyze, ascii_literal_spec, bol_required, compute_lead, lead_covers, plans_agree,
};
use self::exec::plain::{first_end, lit_bytes_agree, plain_program};
use self::exec::{lemma_rep_syntactic, rep_program, rep_syntactic, shapes_ok, MAX_RUN_DEPTH};
use self::exec::vm::run_error;
use self::exec::search::{
    filters_sound, first_fit, first_found_mode, fits_somewhere, lit_limit, literal_mode, no_match_between,
    plain_literal,
};
use self::opcode::{Inst, Program};
use self::ast::text_of;
use self::optimize::{from_program, occurs_at, req_covers};
use self::parse::{decoded, lemma_text_str_decodes, parse, text_chars, text_from};

verus! {

/// Compiled regular expression.
#[derive(Clone, Debug)]
pub struct Regex {
    prog: Program,
    enc: Encoding,
    options: Options,
    syntax: Syntax,
    user_props: Vec<UserProperty>,
}

impl Regex {
    /// The program only continues forward and has group 0, its required
    /// literal is well formed and taken from the program, its class bitmaps
    /// and literal bytes agree with its instructions, and for a plain
    /// pattern its first-byte set holds the first byte of every match.
    pub closed spec fn wf(&self) -> bool {
        &&& self.prog.forward()
        &&& self.prog.capture_count >= 1
        &&& (self.prog.req_lit matches Some(l) ==> l.wf() && from_program(&self.prog, l))
        &&& plans_agree(self.prog.insts@, self.prog.class_plans@, self.enc, self.user_props@)
        &&& lit_bytes_agree(self.prog.insts@, self.prog.literal_bytes@, self.enc)
        &&& (self.prog.ascii_literal matches Some(v) ==> ascii_literal_spec(self.prog.insts@)
            == Some(v@))
        &&& (plain_program(self.prog.insts@) ==> (self.prog.req_lit matches Some(l) ==> req_covers(
            l,
            self.prog.insts@,
            self.options,
        ) && l.run_class is None))
        &&& (rep_syntactic(self.prog.insts@) ==> (self.prog.req_lit matches Some(l) ==> req_covers(
            l,
            self.prog.insts@,
            self.options,
        )))
        &&& (plain_program(self.prog.insts@) && self.prog.anchored_bol ==> bol_required(
            self.prog.insts@,
        ))
        &&& (plain_program(self.prog.insts@) ==> (self.prog.lead matches Some(l) ==> lead_covers(
            l,
            self.prog.insts@,
            self.enc,
            self.options,
            self.user_props@,
            0,
        )))
        &&& shapes_ok(&self.prog)
    }

    /// The compiled program.
    pub closed spec fn program_spec(&self) -> Program {
        self.prog
    }

    /// In a compiled regex, only `Class` instructions carry an ASCII bitmap,
    /// and bit `cp` of each is set exactly when the class holds `cp` under
    /// the options the bitmap records and the regex's user properties.
    pub proof fn class_plans_agree(&self)
        requires
            self.wf(),
        ensures
            plans_agree(
                self.program_spec().insts@,
                self.program_spec().class_plans@,
                self.enc_spec(),
                self.user_props_spec(),
            ),
    {
    }

    /// The compiled pattern only reads characters, tests anchors and chooses
    /// between alternatives: no repetition, look-around, `\G`,
    /// back-reference, call, option change or callout.
    pub open spec fn plain(&self) -> bool {
        plain_program(self.program_spec().insts@)
    }

    /// The compiled pattern reads characters, tests anchors, chooses
    /// between alternatives, repeats (greedily, lazily or possessively) and
    /// calls only the built-in callouts that fail, count or record a skip
    /// point; the matcher runs such a program as its meaning says (see
    /// `repetitions_run_as_meant`).
    pub open spec fn rep_plain(&self) -> bool {
        rep_syntactic(self.program_spec().insts@)
    }

    /// A compiled pattern made only of plain steps, built-in callouts and
    /// repetitions is one the matcher runs as its meaning says.
    pub proof fn repetitions_run_as_meant(&self)
        requires
            self.wf(),
            self.rep_plain(),
        ensures
            rep_program(&self.program_spec()),
    {
        lemma_rep_syntactic(&self.prog);
    }

    /// Where the first match in priority order starting at `at` in `hay`
    /// ends, for a plain pattern: at each alternation the earlier branch
    /// wins when it can match at all.
    pub open spec fn first_match_end(&self, hay: Seq<u8>, at: int) -> Option<int> {
        first_end(
            self.program_spec().insts@,
            self.enc_spec(),
            hay,
            hay.len() as int,
            self.options_spec(),
            self.user_props_spec(),
            0,
            at,
            None,
        )
    }

    /// A search reports the leftmost match: the pattern is plain, every
    /// character of the encoding is one byte, and no option asks for the
    /// longest match, for non-empty ones only, or for one that ends the
    /// haystack.
    pub open spec fn reports_leftmost(&self) -> bool {
        &&& self.plain()
        &&& self.enc_spec().max_len_spec() == 1
        &&& first_found_mode(self.options_spec())
    }

    /// No match of the pattern starts anywhere in `lo..hi` of `hay`.
    pub open spec fn no_match_in(&self, hay: Seq<u8>, lo: int, hi: int) -> bool {
        forall|q: int| lo <= q < hi ==> #[trigger] self.first_match_end(hay, q) is None
    }

    /// The first-byte set never leaves out a match: for a plain pattern,
    /// every match starts inside the haystack at a byte the set holds.
    pub proof fn first_bytes_cover_matches(&self, hay: Seq<u8>, s: int)
        requires
            self.wf(),
            self.plain(),
            self.program_spec().lead is Some,
            self.first_match_end(hay, s) is Some,
        ensures
            0 <= s < hay.len(),
            self.program_spec().lead->0.has(hay[s]),
    {
    }

    /// The required literal is in every match: for a pattern of plain
    /// steps, built-in callouts and repetitions (greedy, lazy or possessive)
    /// in an encoding whose characters can be one byte long, a match starting
    /// at `s` has the literal's bytes at a distance from `s` within its
    /// bounds (the upper one unless it saturated). A repetition widens the
    /// window by as many rounds of its body as it may take.
    pub proof fn required_literal_in_every_match(&self, hay: Seq<u8>, s: int)
        requires
            self.wf(),
            self.rep_plain(),
            self.enc_spec().min_len_spec() == 1,
            self.req_lit_spec() is Some,
            self.first_match_end(hay, s) is Some,
        ensures
            ({
                let l = self.req_lit_spec()->0;
                exists|q: int|
                    s + l.min_dist <= q && (l.max_dist matches Some(m) ==> (q <= s + m || m
                        == u32::MAX)) && #[trigger] occurs_at(hay, l.bytes@, q)
            }),
    {
    }

    /// The literal the analysis found every match to contain, if any.
    pub closed spec fn req_lit_spec(&self) -> Option<ReqLit> {
        self.prog.req_lit
    }

    pub closed spec fn enc_spec(&self) -> Encoding {
        self.enc
    }

    pub closed spec fn options_spec(&self) -> Options {
        self.options
    }

    pub closed spec fn syntax_spec(&self) -> Syntax {
        self.syntax
    }

    pub closed spec fn user_props_spec(&self) -> Seq<UserProperty> {
        self.user_props@
    }

    pub closed spec fn capture_count_spec(&self) -> usize {
        self.prog.capture_count
    }

    /// The bytes a search looks for directly, when the compiled pattern is
    /// one ASCII literal and no option asks for more than its first
    /// occurrence.
    pub closed spec fn literal(&self) -> Option<Seq<u8>> {
        plain_literal(&self.prog, self.enc, self.options)
    }

    /// Compile `pattern` (encoding `enc`) under `syntax`; the syntax's own
    /// options are added to `options`.
    pub fn new(pattern: &[u8], options: Options, enc: Encoding, syntax: Syntax) -> (r: Result<
        Regex,
        Error,
    >)
        ensures
            r matches Ok(re) ==> re.wf() && re.enc_spec() == enc && re.syntax_spec() == syntax
                && re.options_spec().0 == options.0 | syntax.options.0 && re.user_props_spec().len()
                == 0,
            decoded(enc, pattern@, 0) is None ==> r is Err,
            decoded(enc, pattern@, 0) matches Some(cs) && cs.len() < usize::MAX && text_from(
                syntax,
                cs,
                0,
            ) ==> (r matches Ok(re) && re.capture_count_spec() == 1),
            ({
                let d = decoded(enc, pattern@, 0);
                d is Some && 0 < d->0.len() < usize::MAX && text_from(syntax, d->0, 0)
                    && literal_mode(Options(options.0 | syntax.options.0), enc) ==> (r matches Ok(re)
                    && re.literal() == Some(Seq::new(d->0.len(), |k: int| d->0[k].1 as u8)))
            }),
    {
        let parsed = parse(pattern, enc, syntax, options)?;
        let mut prog = compile(&parsed);
        let ghost d = decoded(enc, pattern@, 0);
        // Jump targets are 16-bit: a program too large for them is refused
        // rather than run with wrapped targets.
        if prog.insts.len() > 65535 {
            return Err(Error::kind_msg(ErrorKind::Compile, "pattern too large"));
        }
        let options = options.union(syntax.options);
        let no_props: Vec<UserProperty> = Vec::new();
        analyze(&mut prog, enc, options, &no_props);
        prog.lead = compute_lead(&prog, enc, options, &no_props);
        proof {
            if d is Some && 0 < d->0.len() < usize::MAX && text_from(syntax, d->0, 0) {
                let t = text_of(parsed.root);
                assert(t.len() > 0);
                assert(forall|k: int| 0 <= k < t.len() ==> t[k] <= 0x7F);
                match prog.insts@[0] {
                    Inst::Literal(w) => {
                        assert(w@ == t);
                        assert(ascii_literal_spec(prog.insts@) == Some(
                            Seq::new(t.len(), |k: int| t[k] as u8),
                        ));
                    },
                    Inst::Char(c) => {
                        assert(seq![c] == t);
                        assert(c == t[0]);
                        assert(c <= 0x7F);
                        assert(ascii_literal_spec(prog.insts@) == Some(seq![c as u8]));
                        assert(seq![c as u8] =~= Seq::new(t.len(), |k: int| t[k] as u8));
                    },
                    _ => {},
                }
                assert(Seq::new(t.len(), |k: int| t[k] as u8) =~= Seq::new(
                    d->0.len(),
                    |k: int| d->0[k].1 as u8,
                ));
            }
        }
        Ok(Regex { prog, enc, options, syntax, user_props: Vec::new() })
    }

    /// UTF-8 pattern and haystack convenience: `new` on the pattern's UTF-8
    /// bytes.
    pub fn new_str(pattern: &str, options: Options, syntax: Syntax) -> (r: Result<Regex, Error>)
        ensures
            decoded(Encoding::UTF8, pattern.spec_bytes(), 0) is None ==> r is Err,
            decoded(Encoding::UTF8, pattern.spec_bytes(), 0) matches Some(cs) && cs.len()
                < usize::MAX && text_from(syntax, cs, 0) ==> (r matches Ok(re)
                && re.capture_count_spec() == 1),
            ({
                let d = decoded(Encoding::UTF8, pattern.spec_bytes(), 0);
                d is Some && 0 < d->0.len() < usize::MAX && text_from(syntax, d->0, 0)
                    && literal_mode(Options(options.0 | syntax.options.0), Encoding::UTF8) ==> (r
                    matches Ok(re) && re.literal() == Some(
                    Seq::new(d->0.len(), |k: int| d->0[k].1 as u8),
                ))
            }),
            r matches Ok(re) ==> re.wf() && re.enc_spec() == Encoding::UTF8 && re.syntax_spec()
                == syntax && re.options_spec().0 == options.0 | syntax.options.0
                && re.user_props_spec().len() == 0,
            text_chars(syntax, pattern@) && pattern@.len() < usize::MAX ==> (r matches Ok(re)
                && re.capture_count_spec() == 1),
            text_chars(syntax, pattern@) && 0 < pattern@.len() < usize::MAX && literal_mode(
                Options(options.0 | syntax.options.0),
                Encoding::UTF8,
            ) ==> (r matches Ok(re) && re.literal() == Some(
                Seq::new(pattern@.len(), |k: int| pattern@[k] as u8),
            )),
    {
        let bytes = pattern.as_bytes();
        proof {
            if text_chars(syntax, pattern@) {
                lemma_text_str_decodes(syntax, pattern);
            }
        }
        Self::new(bytes, options, Encoding::UTF8, syntax)
    }

    pub fn encoding(&self) -> (r: Encoding)
        ensures
            r == self.enc_spec(),
    {
        self.enc
    }

    pub fn options(&self) -> (r: Options)
        ensures
            r == self.options_spec(),
    {
        self.options
    }

    pub fn syntax(&self) -> (r: Syntax)
        ensures
            r == self.syntax_spec(),
    {
        self.syntax
    }

    /// Attach a user-defined Unicode property. Every table derived from
    /// class membership is rebuilt, since the property changes what a code
    /// point matches.
    pub fn define_user_property(&mut self, prop: UserProperty)
        requires
            old(self).wf(),
        ensures
            final(self).wf(),
            final(self).user_props_spec() == old(self).user_props_spec().push(prop),
            final(self).enc_spec() == old(self).enc_spec(),
            final(self).options_spec() == old(self).options_spec(),
            final(self).syntax_spec() == old(self).syntax_spec(),
            final(self).capture_count_spec() == old(self).capture_count_spec(),
    {
        self.user_props.push(prop);
        analyze(&mut self.prog, self.enc, self.options, &self.user_props);
        self.prog.lead = compute_lead(&self.prog, self.enc, self.options, &self.user_props);
    }

    /// Does the pattern match anywhere in `hay`?
    pub fn is_match(&self, hay: &[u8]) -> (r: Result<bool, Error>)
        requires
            self.wf(),
        ensures
            r matches Err(e) ==> run_error(e.kind),
            self.plain() && r == Ok::<bool, Error>(true) ==> exists|s: int|
                #[trigger] self.first_match_end(hay@, s) is Some,
            self.rep_plain() && r == Ok::<bool, Error>(true) ==> exists|s: int|
                #[trigger] self.first_match_end(hay@, s) is Some,
            self.literal() matches Some(lit) ==> r == Ok::<bool, Error>(lit.len() > 0 && fits_somewhere(
                hay@,
                lit,
                0,
                hay@.len() as int,
            )),
            self.reports_leftmost() && hay@.len() < u32::MAX && r == Ok::<bool, Error>(false)
                ==> self.no_match_in(hay@, 0, hay@.len() as int + 1),
    {
        proof {
            if self.rep_plain() {
                lemma_rep_syntactic(&self.prog);
            }
        }
        let mut param = MatchParam::new();
        let found = self.search_range_param(hay, 0, hay.len(), &mut param)?;
        proof {
            if found is Some {
                assert(self.plain() ==> self.first_match_end(hay@, found->0.span().0 as int) is Some);
                assert(self.rep_plain() ==> self.first_match_end(hay@, found->0.span().0 as int)
                    is Some);
            }
        }
        Ok(found.is_some())
    }

    /// The first match in `hay`, under the default limits.
    pub fn search(&self, hay: &[u8]) -> (r: Result<Option<Region>, Error>)
        requires
            self.wf(),
        ensures
            r matches Err(e) ==> run_error(e.kind),
            r matches Ok(Some(reg)) ==> reg.wf(hay@.len()) && reg.captures@.len()
                == self.capture_count_spec(),
            self.plain() ==> (r matches Ok(Some(reg)) ==> self.first_match_end(
                hay@,
                reg.span().0 as int,
            ) == Some(reg.span().1 as int)),
            self.rep_plain() ==> (r matches Ok(Some(reg)) ==> self.first_match_end(
                hay@,
                reg.span().0 as int,
            ) == Some(reg.span().1 as int)),
            self.literal() matches Some(lit) ==> match r {
                Ok(Some(reg)) => lit.len() > 0 && first_fit(
                    hay@,
                    lit,
                    0,
                    hay@.len() as int,
                    reg.span().0 as int,
                ) && reg.span().1 == reg.span().0 + lit.len(),
                Ok(None) => lit.len() == 0 || !fits_somewhere(hay@, lit, 0, hay@.len() as int),
                Err(_) => false,
            },
            self.reports_leftmost() && hay@.len() < u32::MAX ==> match r {
                Ok(Some(reg)) => self.no_match_in(hay@, 0, reg.span().0 as int),
                Ok(None) => self.no_match_in(hay@, 0, hay@.len() as int + 1),
                Err(_) => true,
            },
    {
        proof {
            if self.rep_plain() {
                lemma_rep_syntactic(&self.prog);
            }
        }
        let mut param = MatchParam::new();
        self.search_param(hay, &mut param)
    }

    /// The first match in `hay` under `param`'s limits; `(*COUNT)` callouts
    /// passed add to `param.count`.
    pub fn search_param(&self, hay: &[u8], param: &mut MatchParam) -> (r: Result<
        Option<Region>,
        Error,
    >)
        requires
            self.wf(),
        ensures
            final(param).retry_limit_in_match == old(param).retry_limit_in_match,
            final(param).retry_limit_in_search == old(param).retry_limit_in_search,
            r matches Err(e) ==> run_error(e.kind),
            r matches Ok(Some(reg)) ==> reg.wf(hay@.len()) && reg.captures@.len()
                == self.capture_count_spec(),
            self.plain() ==> (r matches Ok(Some(reg)) ==> self.first_match_end(
                hay@,
                reg.span().0 as int,
            ) == Some(reg.span().1 as int)),
            self.rep_plain() ==> (r matches Ok(Some(reg)) ==> self.first_match_end(
                hay@,
                reg.span().0 as int,
            ) == Some(reg.span().1 as int)),
            self.literal() matches Some(lit) ==> match r {
                Ok(Some(reg)) => lit.len() > 0 && first_fit(
                    hay@,
                    lit,
                    0,
                    hay@.len() as int,
                    reg.span().0 as int,
                ) && reg.span().1 == reg.span().0 + lit.len(),
                Ok(None) => lit.len() == 0 || !fits_somewhere(hay@, lit, 0, hay@.len() as int),
                Err(_) => false,
            },
            self.reports_leftmost() && hay@.len() < u32::MAX ==> match r {
                Ok(Some(reg)) => self.no_match_in(hay@, 0, reg.span().0 as int),
                Ok(None) => self.no_match_in(hay@, 0, hay@.len() as int + 1),
                Err(_) => true,
            },
            self.plain() && old(param).retry_limit_in_match == 0 && old(param).retry_limit_in_search
                == 0 && self.program_spec().insts@.len() < MAX_RUN_DEPTH ==> r is Ok,
    {
        proof {
            if self.rep_plain() {
                lemma_rep_syntactic(&self.prog);
            }
        }
        self.search_range_param(hay, 0, hay.len(), param)
    }

    /// `search_param`, consulting `hooks` at callouts.
    pub fn search_param_with<H: Callouts>(&self, hay: &[u8], param: &mut MatchParam, hooks: &H) -> (r:
        Result<Option<Region>, Error>)
        requires
            self.wf(),
        ensures
            final(param).retry_limit_in_match == old(param).retry_limit_in_match,
            final(param).retry_limit_in_search == old(param).retry_limit_in_search,
            r matches Err(e) ==> run_error(e.kind),
            r matches Ok(Some(reg)) ==> reg.wf(hay@.len()) && reg.captures@.len()
                == self.capture_count_spec(),
            self.plain() ==> (r matches Ok(Some(reg)) ==> self.first_match_end(
                hay@,
                reg.span().0 as int,
            ) == Some(reg.span().1 as int)),
            self.rep_plain() ==> (r matches Ok(Some(reg)) ==> self.first_match_end(
                hay@,
                reg.span().0 as int,
            ) == Some(reg.span().1 as int)),
            self.reports_leftmost() && hay@.len() < u32::MAX ==> match r {
                Ok(Some(reg)) => self.no_match_in(hay@, 0, reg.span().0 as int),
                Ok(None) => self.no_match_in(hay@, 0, hay@.len() as int + 1),
                Err(_) => true,
            },
            self.plain() && old(param).retry_limit_in_match == 0 && old(param).retry_limit_in_search
                == 0 && self.program_spec().insts@.len() < MAX_RUN_DEPTH ==> r is Ok,
    {
        proof {
            if self.rep_plain() {
                lemma_rep_syntactic(&self.prog);
            }
        }
        self.search_range_param_with(hay, 0, hay.len(), param, hooks)
    }

    /// The first match starting in `start..=range`; a bound past the
    /// haystack is an `InvalidArgument` error.
    pub fn search_range_param(
        &self,
        hay: &[u8],
        start: usize,
        range: usize,
        param: &mut MatchParam,
    ) -> (r: Result<Option<Region>, Error>)
        requires
            self.wf(),
        ensures
            self.rep_plain() && start <= hay@.len() ==> (r matches Ok(Some(reg)) ==> start
                <= reg.span().0),
            final(param).retry_limit_in_match == old(param).retry_limit_in_match,
            final(param).retry_limit_in_search == old(param).retry_limit_in_search,
            r matches Err(e) ==> run_error(e.kind),
            (start > hay@.len() || range > hay@.len()) ==> (r matches Err(e) && e.kind
                == ErrorKind::InvalidArgument && e.position is None && e.msg() == "search range"@),
            start <= hay@.len() && range <= hay@.len() && start > range ==> r matches Ok(None),
            r matches Ok(Some(reg)) ==> reg.wf(hay@.len()) && reg.captures@.len()
                == self.capture_count_spec(),
            self.plain() ==> (r matches Ok(Some(reg)) ==> self.first_match_end(
                hay@,
                reg.span().0 as int,
            ) == Some(reg.span().1 as int)),
            self.rep_plain() ==> (r matches Ok(Some(reg)) ==> self.first_match_end(
                hay@,
                reg.span().0 as int,
            ) == Some(reg.span().1 as int)),
            start <= hay@.len() && range <= hay@.len() ==> (self.literal() matches Some(lit)
                ==> match r {
                Ok(Some(reg)) => lit.len() > 0 && start <= range && first_fit(
                    hay@,
                    lit,
                    start as int,
                    lit_limit(hay@.len() as int, range as int, lit.len() as int),
                    reg.span().0 as int,
                ) && reg.span().1 == reg.span().0 + lit.len(),
                Ok(None) => lit.len() == 0 || start > range || !fits_somewhere(
                    hay@,
                    lit,
                    start as int,
                    lit_limit(hay@.len() as int, range as int, lit.len() as int),
                ),
                Err(_) => false,
            }),
            start <= hay@.len() && range <= hay@.len() && self.reports_leftmost() && hay@.len()
                < u32::MAX ==> match r {
                Ok(Some(reg)) => start <= reg.span().0 && self.no_match_in(
                    hay@,
                    start as int,
                    reg.span().0 as int,
                ),
                Ok(None) => self.no_match_in(hay@, start as int, range + 1),
                Err(_) => true,
            },
            start <= hay@.len() && range <= hay@.len() && self.plain() && old(param).retry_limit_in_match == 0
                && old(param).retry_limit_in_search == 0 && self.program_spec().insts@.len()
                < MAX_RUN_DEPTH ==> r is Ok,
    {
        proof {
            if self.rep_plain() {
                lemma_rep_syntactic(&self.prog);
            }
        }
        self.search_range_param_with(hay, start, range, param, &NoCallouts)
    }

    /// `search_range_param`, consulting `hooks` at callouts.
    pub fn search_range_param_with<H: Callouts>(
        &self,
        hay: &[u8],
        start: usize,
        range: usize,
        param: &mut MatchParam,
        hooks: &H,
    ) -> (r: Result<Option<Region>, Error>)
        requires
            self.wf(),
        ensures
            self.rep_plain() && start <= hay@.len() ==> (r matches Ok(Some(reg)) ==> start
                <= reg.span().0),
            final(param).retry_limit_in_match == old(param).retry_limit_in_match,
            final(param).retry_limit_in_search == old(param).retry_limit_in_search,
            r matches Err(e) ==> run_error(e.kind),
            (start > hay@.len() || range > hay@.len()) ==> (r matches Err(e) && e.kind
                == ErrorKind::InvalidArgument && e.position is None && e.msg() == "search range"@),
            start <= hay@.len() && range <= hay@.len() && start > range ==> r matches Ok(None),
            r matches Ok(Some(reg)) ==> reg.wf(hay@.len()) && reg.captures@.len()
                == self.capture_count_spec(),
            self.plain() ==> (r matches Ok(Some(reg)) ==> self.first_match_end(
                hay@,
                reg.span().0 as int,
            ) == Some(reg.span().1 as int)),
            self.rep_plain() ==> (r matches Ok(Some(reg)) ==> self.first_match_end(
                hay@,
                reg.span().0 as int,
            ) == Some(reg.span().1 as int)),
            start <= hay@.len() && range <= hay@.len() ==> (self.literal() matches Some(lit)
                ==> match r {
                Ok(Some(reg)) => lit.len() > 0 && start <= range && first_fit(
                    hay@,
                    lit,
                    start as int,
                    lit_limit(hay@.len() as int, range as int, lit.len() as int),
                    reg.span().0 as int,
                ) && reg.span().1 == reg.span().0 + lit.len(),
                Ok(None) => lit.len() == 0 || start > range || !fits_somewhere(
                    hay@,
                    lit,
                    start as int,
                    lit_limit(hay@.len() as int, range as int, lit.len() as int),
                ),
                Err(_) => false,
            }),
            start <= hay@.len() && range <= hay@.len() && self.reports_leftmost() && hay@.len()
                < u32::MAX ==> match r {
                Ok(Some(reg)) => start <= reg.span().0 && self.no_match_in(
                    hay@,
                    start as int,
                    reg.span().0 as int,
                ),
                Ok(None) => self.no_match_in(hay@, start as int, range + 1),
                Err(_) => true,
            },
            start <= hay@.len() && range <= hay@.len() && self.plain() && old(param).retry_limit_in_match == 0
                && old(param).retry_limit_in_search == 0 && self.program_spec().insts@.len()
                < MAX_RUN_DEPTH ==> r is Ok,
    {
        proof {
            if self.rep_plain() {
                lemma_rep_syntactic(&self.prog);
            }
        }
        if start > hay.len() || range > hay.len() {
            return Err(Error::kind_msg(ErrorKind::InvalidArgument, "search range"));
        }
        proof {
            if self.reports_leftmost() {
                assert(filters_sound(&self.prog, self.enc, self.options, self.user_props@));
            }
        }
        let r = exec::search::search(
            &self.prog,
            hay,
            self.enc,
            self.options,
            start,
            range,
            param,
            hooks,
            &self.user_props,
        );
        proof {
            reveal(no_match_between);
        }
        r
    }

    /// Match only at `at` (Oniguruma `onig_match`).
    pub fn find_at(&self, hay: &[u8], at: usize) -> (r: Result<Option<Region>, Error>)
        requires
            self.wf(),
        ensures
            r matches Err(e) ==> run_error(e.kind),
            r matches Ok(Some(reg)) ==> reg.wf(hay@.len()) && reg.captures@.len()
                == self.capture_count_spec(),
            at > hay@.len() ==> r matches Ok(None),
            self.plain() && at <= hay@.len() ==> match r {
                Ok(Some(reg)) => reg.span().0 == at && self.first_match_end(hay@, at as int)
                    == Some(reg.span().1 as int),
                Ok(None) => self.first_match_end(hay@, at as int) is None,
                Err(_) => true,
            },
            self.rep_plain() && at <= hay@.len() ==> match r {
                Ok(Some(reg)) => reg.span().0 == at && self.first_match_end(hay@, at as int)
                    == Some(reg.span().1 as int),
                Ok(None) => self.first_match_end(hay@, at as int) is None,
                Err(_) => true,
            },
    {
        proof {
            if self.rep_plain() {
                lemma_rep_syntactic(&self.prog);
            }
        }
        let mut param = MatchParam::new();
        exec::search::match_at(
            &self.prog,
            hay,
            self.enc,
            self.options,
            at,
            at,
            &mut param,
            &NoCallouts,
            &self.user_props,
        )
    }

    /// The byte sequence every match must contain, if the analysis found
    /// one.
    pub fn required_literal(&self) -> (r: Option<&ReqLit>)
        requires
            self.wf(),
        ensures
            match r {
                Some(l) => self.req_lit_spec() == Some(*l) && l.wf() && from_program(
                    &self.program_spec(),
                    *l,
                ),
                None => self.req_lit_spec() is None,
            },
    {
        match &self.prog.req_lit {
            Some(l) => Some(l),
            None => None,
        }
    }

    /// Number of groups, group 0 included.
    pub fn capture_count(&self) -> (r: usize)
        ensures
            r == self.capture_count_spec(),
    {
        self.prog.capture_count
    }
}

} // verus!
