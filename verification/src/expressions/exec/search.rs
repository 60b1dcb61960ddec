//! The search driver: which start positions to try, and the literal fast
//! path.

use vstd::prelude::*;
use core::ops::Range;
use super::{next_pos, rep_program, Engine, MAX_RUN_DEPTH};
use super::vm::run_error;
use super::analyze::plans_agree;
use super::analyze::{ascii_literal_spec, bol_required, lead_covers};
use super::plain::{
    anchor_spec, ascii_lit, char_at_spec, char_step, first_end, lit_bytes_agree, lit_step,
    plain_program,
};
use super::super::opcode::Inst;
use super::super::callout::Callouts;
use super::super::encoding::Encoding;
use super::super::error::Error;
use super::super::opcode::{Lead, Program};
use super::super::ast::Anchor;
use super::super::optimize::{class_run_start, find_bytes, occurs_at, req_covers, ReqLit};
use super::super::param::MatchParam;
use super::super::region::{slot, Region};
use super::super::syntax::Options;
use super::super::unicode::UserProperty;

verus! {

/// The first `p` from `start` at which `lit` occurs and ends by `limit`.
pub open spec fn first_fit(hay: Seq<u8>, lit: Seq<u8>, start: int, limit: int, p: int) -> bool {
    &&& start <= p
    &&& p + lit.len() <= limit
    &&& occurs_at(hay, lit, p)
    &&& forall|q: int| start <= q < p ==> !occurs_at(hay, lit, q)
}

/// How far a literal of `k` bytes that starts by `end` may reach in a
/// haystack of `n` bytes: a match may run past the last start position.
pub open spec fn lit_limit(n: int, end: int, k: int) -> int {
    if end + k < n {
        end + k
    } else {
        n
    }
}

/// Is there an occurrence of `lit` from `start` ending by `limit`?
pub open spec fn fits_somewhere(hay: Seq<u8>, lit: Seq<u8>, start: int, limit: int) -> bool {
    exists|q: int| start <= q && q + lit.len() <= limit && occurs_at(hay, lit, q)
}

/// Where an occurrence exists there is a first one: a literal search
/// reports a match exactly when `is_match` does.
pub proof fn first_fit_exists(hay: Seq<u8>, lit: Seq<u8>, start: int, limit: int)
    requires
        fits_somewhere(hay, lit, start, limit),
    ensures
        exists|p: int| first_fit(hay, lit, start, limit, p),
{
    let q = choose|q: int| start <= q && q + lit.len() <= limit && occurs_at(hay, lit, q);
    least_fit(hay, lit, start, limit, q);
}

proof fn least_fit(hay: Seq<u8>, lit: Seq<u8>, start: int, limit: int, q: int)
    requires
        start <= q,
        q + lit.len() <= limit,
        occurs_at(hay, lit, q),
    ensures
        exists|p: int| first_fit(hay, lit, start, limit, p),
    decreases q - start,
{
    if exists|r: int| start <= r < q && occurs_at(hay, lit, r) {
        let r = choose|r: int| start <= r < q && occurs_at(hay, lit, r);
        least_fit(hay, lit, start, limit, r);
    } else {
        assert(first_fit(hay, lit, start, limit, q));
    }
}

/// The first occurrence is unique: a literal search has one answer.
pub proof fn first_fit_unique(hay: Seq<u8>, lit: Seq<u8>, start: int, limit: int, p: int, q: int)
    requires
        first_fit(hay, lit, start, limit, p),
        first_fit(hay, lit, start, limit, q),
    ensures
        p == q,
{
}

proof fn lemma_sub_occurs(hay: Seq<u8>, lit: Seq<u8>, start: int, limit: int, q: int)
    requires
        0 <= start <= limit <= hay.len(),
        0 <= q,
    ensures
        occurs_at(hay.subrange(start, limit), lit, q) == (q + start + lit.len() <= limit && occurs_at(
            hay,
            lit,
            q + start,
        )),
{
    let sub = hay.subrange(start, limit);
    if q + start + lit.len() <= limit {
        assert(sub.subrange(q, q + lit.len()) =~= hay.subrange(q + start, q + start + lit.len()));
    }
}

/// Search for an all-ASCII literal program: the first occurrence of `lit`
/// that starts in `start..=end` (and ends in the haystack).
pub fn search_ascii_literal(hay: &[u8], start: usize, end: usize, lit: &Vec<u8>, prog: &Program) -> (r:
    Option<Region>)
    requires
        prog.capture_count >= 1,
    ensures
        ({
            let limit = lit_limit(
                hay@.len() as int,
                if end < hay@.len() { end as int } else { hay@.len() as int },
                lit@.len() as int,
            );
            &&& r matches Some(reg) ==> lit@.len() > 0 && start <= end && reg.wf(hay@.len())
                && reg.captures@.len() == prog.capture_count && first_fit(
                hay@,
                lit@,
                start as int,
                limit,
                reg.span().0 as int,
            ) && reg.span().1 == reg.span().0 + lit@.len()
            &&& r is None ==> lit@.len() == 0 || start > end || !fits_somewhere(
                hay@,
                lit@,
                start as int,
                limit,
            )
        }),
{
    if lit.len() == 0 || start > end {
        return None;
    }
    let e = if end < hay.len() { end } else { hay.len() };
    let limit = if lit.len() < hay.len() - e { e + lit.len() } else { hay.len() };
    if start > limit {
        proof {
            assert forall|q: int| start <= q && q + lit@.len() <= limit implies !occurs_at(
                hay@,
                lit@,
                q,
            ) by {}
        }
        return None;
    }
    let found = find_bytes(&hay[start..limit], lit.as_slice());
    match found {
        Some(off) => {
            let p = start + off;
            proof {
                lemma_sub_occurs(hay@, lit@, start as int, limit as int, off as int);
                assert forall|q: int| start <= q < p implies !occurs_at(hay@, lit@, q) by {
                    lemma_sub_occurs(hay@, lit@, start as int, limit as int, q - start);
                }
            }
            let mut r = Region::with_names(prog.capture_count, prog.has_named);
            r.captures.set(0, Some(p..p + lit.len()));
            if prog.has_named {
                let mut i: usize = 0;
                while i < prog.names.len() && i < r.names.len()
                    invariant
                        r.captures@.len() == prog.capture_count,
                        r.names@.len() == prog.capture_count,
                        r.captures@[0] == Some(p..(p + lit@.len()) as usize),
                        forall|j: int|
                            1 <= j < r.captures@.len() ==> #[trigger] r.captures@[j] is None,
                        r.history is None,
                    decreases prog.names@.len() - i,
                {
                    r.names.set(i, prog.names[i].clone());
                    i = i + 1;
                }
            }
            proof {
                assert(slot(r.captures@, 0) == Some((p, (p + lit@.len()) as usize)));
            }
            Some(r)
        },
        None => {
            proof {
                assert forall|q: int| start <= q && q + lit@.len() <= limit implies !occurs_at(
                    hay@,
                    lit@,
                    q,
                ) by {
                    lemma_sub_occurs(hay@, lit@, start as int, limit as int, q - start);
                }
            }
            None
        },
    }
}

/// Offset of the first byte of `hay` that `lead` admits.
pub fn scan_lead(hay: &[u8], lead: &Lead) -> (r: Option<usize>)
    ensures
        r matches Some(off) ==> off < hay@.len() && lead.has(hay@[off as int]) && forall|k: int|
            0 <= k < off ==> !lead.has(#[trigger] hay@[k]),
        r is None ==> forall|k: int| 0 <= k < hay@.len() ==> !lead.has(#[trigger] hay@[k]),
{
    let mut i: usize = 0;
    while i < hay.len()
        invariant
            i <= hay@.len(),
            forall|k: int| 0 <= k < i ==> !lead.has(#[trigger] hay@[k]),
        decreases hay@.len() - i,
    {
        if lead.contains(hay[i]) {
            return Some(i);
        }
        i = i + 1;
    }
    None
}

/// `p` starts a line of `hay`, and `lit`, when given, occurs there.
pub open spec fn bol_candidate(hay: Seq<u8>, lit: Option<Seq<u8>>, p: int) -> bool {
    &&& (p == 0 || hay[p - 1] == 0x0a)
    &&& (lit matches Some(l) ==> occurs_at(hay, l, p))
}

/// The literal a line-start scan also checks for, as bytes.
pub open spec fn opt_bytes(lit: Option<&Vec<u8>>) -> Option<Seq<u8>> {
    match lit {
        Some(l) => Some(l@),
        None => None,
    }
}

/// From `pos`, the next line start at or before `end` (at which `lit`
/// follows, when there is one), or `None`.
fn bol_scan(hay: &[u8], pos: usize, end: usize, scan_end: usize, lit: Option<&Vec<u8>>) -> (r:
    Option<usize>)
    requires
        pos <= end,
        end <= hay@.len(),
        scan_end <= hay@.len(),
        end < hay@.len() ==> scan_end == end + 1,
        end == hay@.len() ==> scan_end == end,
    ensures
        r matches Some(p) ==> pos <= p <= end && bol_candidate(hay@, opt_bytes(lit), p as int)
            && forall|q: int| pos <= q < p ==> !#[trigger] bol_candidate(hay@, opt_bytes(lit), q),
        r is None ==> forall|q: int|
            pos <= q <= end ==> !#[trigger] bol_candidate(hay@, opt_bytes(lit), q),
{
    let ghost lb = opt_bytes(lit);
    let mut p = pos;
    loop
        invariant
            pos <= p <= end,
            end <= hay@.len(),
            scan_end <= hay@.len(),
            end < hay@.len() ==> scan_end == end + 1,
            end == hay@.len() ==> scan_end == end,
            lb == opt_bytes(lit),
            forall|q: int| pos <= q < p ==> !#[trigger] bol_candidate(hay@, lb, q),
        decreases end - p,
    {
        if p == 0 || hay[p - 1] == 10 {
            // On a line start. When the literal must sit here too, check it
            // now instead of scanning for it separately.
            match lit {
                Some(l) => {
                    let hl = hay.len();
                    if l.len() <= hl - p {
                        let mut k: usize = 0;
                        while k < l.len() && hay[p + k] == l[k]
                            invariant
                                k <= l@.len(),
                                hl == hay@.len(),
                                p + l@.len() <= hay@.len(),
                                forall|j: int| 0 <= j < k ==> hay@[p + j] == l@[j],
                            decreases l@.len() - k,
                        {
                            k = k + 1;
                        }
                        if k == l.len() {
                            proof {
                                assert(hay@.subrange(p as int, p + l@.len()) =~= l@);
                            }
                            return Some(p);
                        }
                        proof {
                            assert(hay@.subrange(p as int, p + l@.len())[k as int] != l@[k as int]);
                        }
                    }
                },
                None => return Some(p),
            }
        }
        assert(!bol_candidate(hay@, lb, p as int));
        let mut i = p;
        while i < scan_end && hay[i] != 10
            invariant
                p <= i <= scan_end,
                scan_end <= hay@.len(),
                forall|j: int| p <= j < i ==> hay@[j] != 0x0a,
            decreases scan_end - i,
        {
            i = i + 1;
        }
        if i >= scan_end {
            proof {
                assert forall|q: int| pos <= q <= end implies !#[trigger] bol_candidate(hay@, lb, q) by {
                    if q > p {
                        assert(hay@[q - 1] != 0x0a);
                    }
                }
            }
            return None;
        }
        let n = i + 1;
        if n > end {
            proof {
                assert forall|q: int| pos <= q <= end implies !#[trigger] bol_candidate(hay@, lb, q) by {
                    if q > p {
                        assert(hay@[q - 1] != 0x0a);
                    }
                }
            }
            return None;
        }
        proof {
            assert forall|q: int| pos <= q < n implies !#[trigger] bol_candidate(hay@, lb, q) by {
                if q > p {
                    assert(hay@[q - 1] != 0x0a);
                }
            }
        }
        p = n;
    }
}

/// Search `hay` for `prog` from `start` up to `range`: the first match (the
/// longest under `FIND_LONGEST`), as a region.
pub fn search<H: Callouts>(
    prog: &Program,
    hay: &[u8],
    enc: Encoding,
    options: Options,
    start: usize,
    range: usize,
    param: &mut MatchParam,
    hooks: &H,
    user_props: &Vec<UserProperty>,
) -> (r: Result<Option<Region>, Error>)
    requires
        prog.forward(),
        prog.capture_count >= 1,
        plans_agree(prog.insts@, prog.class_plans@, enc, user_props@),
        lit_bytes_agree(prog.insts@, prog.literal_bytes@, enc),
        prog.ascii_literal matches Some(v) ==> ascii_literal_spec(prog.insts@) == Some(v@),
    ensures
        r matches Err(e) ==> run_error(e.kind),
        r matches Ok(Some(reg)) ==> reg.wf(hay@.len()) && reg.captures@.len() == prog.capture_count,
        plain_program(prog.insts@) ==> (r matches Ok(Some(reg)) ==> first_end(
            prog.insts@,
            enc,
            hay@,
            hay@.len() as int,
            options,
            user_props@,
            0,
            reg.span().0 as int,
            None,
        ) == Some(reg.span().1 as int)),
        rep_program(prog) ==> (r matches Ok(Some(reg)) ==> (if start < hay@.len() { start as int } else { hay@.len() as int }) <= reg.span().0),
        rep_program(prog) ==> (r matches Ok(Some(reg)) ==> first_end(
            prog.insts@,
            enc,
            hay@,
            hay@.len() as int,
            options,
            user_props@,
            0,
            reg.span().0 as int,
            None,
        ) == Some(reg.span().1 as int)),
        final(param).stack_limit == old(param).stack_limit,
        final(param).retry_limit_in_match == old(param).retry_limit_in_match,
        final(param).retry_limit_in_search == old(param).retry_limit_in_search,
        final(param).subexp_call_limit == old(param).subexp_call_limit,
        (if start < hay@.len() { start as int } else { hay@.len() as int }) > (if range
            < hay@.len() {
            range as int
        } else {
            hay@.len() as int
        }) ==> r matches Ok(None),
        ({
            let end = if range < hay@.len() { range } else { hay@.len() as usize };
            let pos = if start < hay@.len() { start } else { hay@.len() as usize };
            plain_literal(prog, enc, options) matches Some(lit) ==> match r {
                Ok(Some(reg)) => lit.len() > 0 && pos <= end && first_fit(
                    hay@,
                    lit,
                    pos as int,
                    lit_limit(hay@.len() as int, end as int, lit.len() as int),
                    reg.span().0 as int,
                ) && reg.span().1 == reg.span().0 + lit.len(),
                Ok(None) => lit.len() == 0 || pos > end || !fits_somewhere(
                    hay@,
                    lit,
                    pos as int,
                    lit_limit(hay@.len() as int, end as int, lit.len() as int),
                ),
                Err(_) => false,
            }
        }),
        filters_sound(prog, enc, options, user_props@) && first_found_mode(options) && hay@.len()
            < u32::MAX ==> ({
            let end = if range < hay@.len() { range as int } else { hay@.len() as int };
            let pos = if start < hay@.len() { start as int } else { hay@.len() as int };
            match r {
                Ok(Some(reg)) => pos <= reg.span().0 && no_match_between(
                    prog.insts@,
                    enc,
                    hay@,
                    options,
                    user_props@,
                    pos,
                    reg.span().0 as int,
                ),
                Ok(None) => no_match_between(prog.insts@, enc, hay@, options, user_props@, pos, end + 1),
                Err(_) => true,
            }
        }),
        plain_program(prog.insts@) && old(param).retry_limit_in_match == 0
            && old(param).retry_limit_in_search == 0 && prog.insts@.len() < MAX_RUN_DEPTH ==> r is Ok,
{
    let end = if range < hay.len() { range } else { hay.len() };
    let pos = if start < hay.len() { start } else { hay.len() };
    let plain = !options.contains(Options::find_longest()) && !options.contains(
        Options::find_not_empty(),
    ) && !options.contains(Options::match_whole_string()) && !options.contains(
        Options::ignorecase(),
    ) && enc.min_len() == 1;
    if plain {
        match &prog.ascii_literal {
            Some(lit) => {
                let found = search_ascii_literal(hay, pos, end, lit, prog);
                proof {
                    reveal(no_match_between);
                    assert forall|q: int|
                        pos <= q && (found matches Some(reg) ==> q < reg.span().0) && (found is None
                            ==> q <= end) implies #[trigger] first_end(
                        prog.insts@,
                        enc,
                        hay@,
                        hay@.len() as int,
                        options,
                        user_props@,
                        0,
                        q,
                        None,
                    ) is None by {
                        if first_end(
                            prog.insts@,
                            enc,
                            hay@,
                            hay@.len() as int,
                            options,
                            user_props@,
                            0,
                            q,
                            None,
                        ) is Some {
                            lemma_literal_only(prog.insts@, lit@, enc, options, hay@, user_props@, q);
                        }
                    }
                    if found is Some {
                        lemma_literal_match(
                            prog.insts@,
                            lit@,
                            enc,
                            options,
                            hay@,
                            user_props@,
                            found->0.span().0 as int,
                        );
                    }
                }
                return Ok(found);
            },
            None => {},
        }
    }
    if pos > end {
        proof {
            reveal(no_match_between);
        }
        return Ok(None);
    }
    let mut eng = Engine::new(prog, hay, enc, options, param, hooks, user_props, start);
    let r = search_with(&mut eng, prog, hay, enc, options, start, pos, end);
    param.count = eng.count;
    r
}

/// An occurrence of a literal program's bytes is the match that program
/// finds there, when case matters and characters can be one byte long.
proof fn lemma_literal_match(
    insts: Seq<Inst>,
    lit: Seq<u8>,
    enc: Encoding,
    options: Options,
    hay: Seq<u8>,
    props: Seq<UserProperty>,
    p: int,
)
    requires
        ascii_literal_spec(insts) == Some(lit),
        !options.has(Options::ignorecase_spec()),
        enc.min_len_spec() == 1,
        occurs_at(hay, lit, p),
    ensures
        first_end(insts, enc, hay, hay.len() as int, options, props, 0, p, None) == Some(
            p + lit.len(),
        ),
{
    let len = hay.len() as int;
    assert(first_end(insts, enc, hay, len, options, props, 1, p + lit.len(), None) == Some(
        p + lit.len(),
    ));
    match insts[0] {
        Inst::Literal(v) => {
            assert(ascii_lit(v@) == Some(lit));
            assert(hay.subrange(p, p + lit.len()) == lit);
            assert(lit_step(enc, hay, len, options, p, v@) == Some(p + lit.len()));
        },
        Inst::Char(c) => {
            assert(lit.len() == 1 && lit[0] == c as u8);
            assert(hay[p] == hay.subrange(p, p + 1)[0]);
            let rest = hay.subrange(p, len);
            assert(rest[0] == c as u8);
            assert(enc.char_len(rest) == Some(1nat));
            assert(char_at_spec(enc, hay, p, len) == Some((c, 1nat)));
            assert(char_step(enc, hay, len, options, p, c) == Some(p + 1));
        },
        _ => {},
    }
}

/// Options and encoding under which a search of a one-literal program
/// reports the literal's first occurrence directly: no longest, non-empty
/// or whole-string match asked for, no case folding, and characters that
/// can be one byte long.
pub open spec fn literal_mode(options: Options, enc: Encoding) -> bool {
    &&& !options.has(Options::find_longest_spec())
    &&& !options.has(Options::find_not_empty_spec())
    &&& !options.has(Options::match_whole_string_spec())
    &&& !options.has(Options::ignorecase_spec())
    &&& enc.min_len_spec() == 1
}

/// With no option bits set, in an encoding whose characters can be one
/// byte long, a one-literal pattern is searched for directly.
pub proof fn lemma_no_options_literal_mode(enc: Encoding)
    requires
        enc.min_len_spec() == 1,
    ensures
        literal_mode(Options(0u32 | 0u32), enc),
{
    assert(0u32 | 0u32 == 0u32) by (bit_vector);
    let a = Options::find_longest_spec().0;
    let b = Options::find_not_empty_spec().0;
    let c = Options::match_whole_string_spec().0;
    let d = Options::ignorecase_spec().0;
    assert(0u32 & a == 0u32) by (bit_vector);
    assert(0u32 & b == 0u32) by (bit_vector);
    assert(0u32 & c == 0u32) by (bit_vector);
    assert(0u32 & d == 0u32) by (bit_vector);
}

/// The literal a plain search takes its fast path for.
pub open spec fn plain_literal(prog: &Program, enc: Encoding, options: Options) -> Option<Seq<u8>> {
    if !options.has(Options::find_longest_spec()) && !options.has(Options::find_not_empty_spec())
        && !options.has(Options::match_whole_string_spec()) && !options.has(
        Options::ignorecase_spec(),
    ) && enc.min_len_spec() == 1 {
        match prog.ascii_literal {
            Some(v) => Some(v@),
            None => None,
        }
    } else {
        None
    }
}

/// No match of `insts` begins at any `q` with `lo <= q < hi`.
#[verifier::opaque]
pub open spec fn no_match_between(
    insts: Seq<Inst>,
    enc: Encoding,
    hay: Seq<u8>,
    opt: Options,
    props: Seq<UserProperty>,
    lo: int,
    hi: int,
) -> bool {
    forall|q: int|
        lo <= q < hi ==> #[trigger] first_end(insts, enc, hay, hay.len() as int, opt, props, 0, q, None)
            is None
}

/// Two adjacent stretches without a match make one.
proof fn lemma_no_match_join(
    insts: Seq<Inst>,
    enc: Encoding,
    hay: Seq<u8>,
    opt: Options,
    props: Seq<UserProperty>,
    a: int,
    b: int,
    c: int,
)
    requires
        no_match_between(insts, enc, hay, opt, props, a, b),
        no_match_between(insts, enc, hay, opt, props, b, c),
    ensures
        no_match_between(insts, enc, hay, opt, props, a, c),
{
    reveal(no_match_between);
}

/// Part of a stretch without a match has none either.
proof fn lemma_no_match_within(
    insts: Seq<Inst>,
    enc: Encoding,
    hay: Seq<u8>,
    opt: Options,
    props: Seq<UserProperty>,
    a: int,
    b: int,
    c: int,
    d: int,
)
    requires
        no_match_between(insts, enc, hay, opt, props, a, b),
        a <= c,
        d <= b,
    ensures
        no_match_between(insts, enc, hay, opt, props, c, d),
{
    reveal(no_match_between);
}

/// What the search's start-position filters rely on: the program is plain,
/// every character is one byte, and the lead bytes, the required literal and
/// the line anchor that the analysis recorded hold of every match.
pub open spec fn filters_sound(prog: &Program, enc: Encoding, opt: Options, props: Seq<UserProperty>) -> bool {
    &&& plain_program(prog.insts@)
    &&& enc.max_len_spec() == 1
    &&& (prog.lead matches Some(l) ==> lead_covers(l, prog.insts@, enc, opt, props, 0))
    &&& (prog.req_lit matches Some(l) ==> l.wf() && l.run_class is None && req_covers(
        l,
        prog.insts@,
        opt,
    ))
    &&& (prog.anchored_bol ==> bol_required(prog.insts@))
}

/// The search reports the first match it finds: neither the longest, nor
/// only non-empty ones, nor only those that end the haystack.
pub open spec fn first_found_mode(opt: Options) -> bool {
    &&& !opt.has(Options::find_longest_spec())
    &&& !opt.has(Options::find_not_empty_spec())
    &&& !opt.has(Options::match_whole_string_spec())
}

/// `c` caches where `bytes` next occur: at `q`, with no occurrence from
/// `from` up to it.
#[verifier::opaque]
spec fn req_cache(hay: Seq<u8>, bytes: Seq<u8>, from: int, c: Option<usize>) -> bool {
    c matches Some(q) ==> q <= hay.len() && occurs_at(hay, bytes, q as int) && forall|k: int|
        from <= k < q ==> !#[trigger] occurs_at(hay, bytes, k)
}

/// `l`'s bytes do not occur within `l`'s distance bounds from `p`.
spec fn req_window_free(hay: Seq<u8>, l: ReqLit, p: int) -> bool {
    forall|k: int|
        p + l.min_dist <= k && (l.max_dist matches Some(m) ==> (k <= p + m || m == u32::MAX))
            ==> !#[trigger] occurs_at(hay, l.bytes@, k)
}

/// No start `p` in `lo..hi` has `l`'s bytes within `l`'s distance bounds.
#[verifier::opaque]
spec fn req_skipped(hay: Seq<u8>, l: ReqLit, lo: int, hi: int) -> bool {
    forall|p: int| lo <= p < hi ==> #[trigger] req_window_free(hay, l, p)
}

/// The required-literal filter: from `pos`, the first position at which a
/// match could still start, given where `rl`'s bytes next occur (cached in
/// `req_q`), or `None` when none can start by `end`.
fn req_skip(
    hay: &[u8],
    rl: &ReqLit,
    prog: &Program,
    pos: usize,
    end: usize,
    req_q: &mut Option<usize>,
    Ghost(from): Ghost<int>,
) -> (r: Option<usize>)
    requires
        pos <= end <= hay@.len(),
        from <= pos + rl.min_dist,
        req_cache(hay@, rl.bytes@, from, *old(req_q)),
    ensures
        req_cache(hay@, rl.bytes@, pos + rl.min_dist, *final(req_q)),
        r matches Some(np) ==> pos <= np <= end,
        rl.wf() && rl.run_class is None && hay@.len() < u32::MAX ==> match r {
            Some(np) => req_skipped(hay@, *rl, pos as int, np as int),
            None => req_skipped(hay@, *rl, pos as int, end + 1),
        },
{
    reveal(req_cache);
    reveal(req_skipped);
    let lit_end = hay.len();
    let need_from = pos.saturating_add(rl.min_dist as usize);
    if need_from > lit_end {
        return None;
    }
    let stale = match *req_q {
        Some(q) => q < need_from,
        None => true,
    };
    if stale {
        let found = find_bytes(&hay[need_from..lit_end], rl.bytes.as_slice());
        *req_q = match found {
            Some(off) => Some(need_from + off),
            None => None,
        };
        proof {
            match found {
                Some(off) => {
                    lemma_sub_occurs(hay@, rl.bytes@, need_from as int, lit_end as int, off as int);
                    assert forall|k: int|
                        need_from <= k < need_from + off implies !#[trigger] occurs_at(
                        hay@,
                        rl.bytes@,
                        k,
                    ) by {
                        lemma_sub_occurs(
                            hay@,
                            rl.bytes@,
                            need_from as int,
                            lit_end as int,
                            k - need_from,
                        );
                    }
                },
                None => {
                    assert forall|k: int| need_from <= k && rl.bytes@.len() > 0 implies !#[trigger] occurs_at(
                        hay@,
                        rl.bytes@,
                        k,
                    ) by {
                        if k <= lit_end {
                            lemma_sub_occurs(
                                hay@,
                                rl.bytes@,
                                need_from as int,
                                lit_end as int,
                                k - need_from,
                            );
                        }
                    }
                },
            }
        }
    }
    // The literal does not occur again, so nothing can match.
    let q = match *req_q {
        Some(q) => q,
        None => return None,
    };
    // Earliest start that could still reach this occurrence.
    let floor = match rl.run_class {
        Some(cpc) => {
            if q >= pos {
                class_run_start(prog, cpc as usize, hay, pos, q)
            } else {
                pos
            }
        },
        None => match rl.max_dist {
            Some(d) => q.saturating_sub(d as usize),
            None => pos,
        },
    };
    if floor > pos {
        // The literal may sit past the last legal start.
        if floor > end {
            return None;
        }
        return Some(floor);
    }
    Some(pos)
}

/// Positions `lo..hi` hold no byte of `ld` (or lie at the end).
#[verifier::opaque]
spec fn lead_skipped(hay: Seq<u8>, ld: Lead, lo: int, hi: int) -> bool {
    forall|q: int| lo <= q < hi ==> !(q < hay.len() && ld.has(#[trigger] hay[q]))
}

/// The lead-byte filter: from `pos`, the first position up to `end` whose
/// byte can begin a match, or `None`.
fn lead_skip(hay: &[u8], ld: &Lead, pos: usize, end: usize, scan_end: usize) -> (r: Option<usize>)
    requires
        pos <= end <= hay@.len(),
        end < hay@.len() ==> scan_end == end + 1,
        end == hay@.len() ==> scan_end == end,
    ensures
        r matches Some(np) ==> pos <= np <= end,
        match r {
            Some(np) => lead_skipped(hay@, *ld, pos as int, np as int),
            None => lead_skipped(hay@, *ld, pos as int, end + 1),
        },
{
    reveal(lead_skipped);
    if pos < hay.len() && !ld.contains(hay[pos]) {
        if pos >= scan_end {
            return None;
        }
        let sub = &hay[pos..scan_end];
        match scan_lead(sub, ld) {
            Some(off) => {
                proof {
                    assert forall|q: int| pos <= q < pos + off implies !(q < hay@.len() && ld.has(
                        #[trigger] hay@[q],
                    )) by {
                        assert(hay@[q] == sub@[q - pos]);
                    }
                }
                Some(pos + off)
            },
            None => {
                proof {
                    assert forall|q: int| pos <= q < end + 1 implies !(q < hay@.len() && ld.has(
                        #[trigger] hay@[q],
                    )) by {
                        if q < scan_end {
                            assert(hay@[q] == sub@[q - pos]);
                        }
                    }
                }
                None
            },
        }
    } else {
        Some(pos)
    }
}

/// Positions the lead filter skips start no match.
proof fn lemma_lead_skip(
    prog: &Program,
    enc: Encoding,
    hay: Seq<u8>,
    opt: Options,
    props: Seq<UserProperty>,
    ld: Lead,
    lo: int,
    hi: int,
)
    requires
        prog.lead == Some(ld),
        filters_sound(prog, enc, opt, props),
        lead_skipped(hay, ld, lo, hi),
    ensures
        no_match_between(prog.insts@, enc, hay, opt, props, lo, hi),
{
    reveal(no_match_between);
    reveal(lead_skipped);
    assert forall|q: int| lo <= q < hi implies #[trigger] first_end(
        prog.insts@,
        enc,
        hay,
        hay.len() as int,
        opt,
        props,
        0,
        q,
        None,
    ) is None by {
        if first_end(prog.insts@, enc, hay, hay.len() as int, opt, props, 0, q, None) is Some {
            assert(q < hay.len() && ld.has(hay[q]));
        }
    }
}

/// Positions the required-literal filter skips start no match.
proof fn lemma_req_skip(
    prog: &Program,
    enc: Encoding,
    hay: Seq<u8>,
    opt: Options,
    props: Seq<UserProperty>,
    rl: ReqLit,
    lo: int,
    hi: int,
)
    requires
        prog.req_lit == Some(rl),
        filters_sound(prog, enc, opt, props),
        req_skipped(hay, rl, lo, hi),
    ensures
        no_match_between(prog.insts@, enc, hay, opt, props, lo, hi),
{
    reveal(no_match_between);
    reveal(req_skipped);
    assert forall|q: int| lo <= q < hi implies #[trigger] first_end(
        prog.insts@,
        enc,
        hay,
        hay.len() as int,
        opt,
        props,
        0,
        q,
        None,
    ) is None by {
        if first_end(prog.insts@, enc, hay, hay.len() as int, opt, props, 0, q, None) is Some {
            let k = choose|k: int|
                q + rl.min_dist <= k && (rl.max_dist matches Some(m) ==> (k <= q + m || m
                    == u32::MAX)) && #[trigger] occurs_at(hay, rl.bytes@, k);
            assert(req_window_free(hay, rl, q));
            assert(occurs_at(hay, rl.bytes@, k));
        }
    }
}

/// Positions the line-start scan skips start no match: they begin no line,
/// or lack the literal a `^`-anchored match must start with.
proof fn lemma_bol_skip(
    prog: &Program,
    enc: Encoding,
    hay: Seq<u8>,
    opt: Options,
    props: Seq<UserProperty>,
    lit: Option<Seq<u8>>,
    lo: int,
    hi: int,
)
    requires
        prog.anchored_bol,
        filters_sound(prog, enc, opt, props),
        lit matches Some(b) ==> (prog.req_lit matches Some(rl) && rl.bytes@ == b && rl.min_dist
            == 0 && rl.max_dist == Some(0u32)),
        0 <= lo,
        hi <= hay.len() + 1,
        forall|q: int| lo <= q < hi ==> !#[trigger] bol_candidate(hay, lit, q),
    ensures
        no_match_between(prog.insts@, enc, hay, opt, props, lo, hi),
{
    reveal(no_match_between);
    assert forall|q: int| lo <= q < hi implies #[trigger] first_end(
        prog.insts@,
        enc,
        hay,
        hay.len() as int,
        opt,
        props,
        0,
        q,
        None,
    ) is None by {
        if first_end(prog.insts@, enc, hay, hay.len() as int, opt, props, 0, q, None) is Some {
            assert(anchor_spec(Anchor::Bol, enc, hay, hay.len() as int, opt, q));
            if q > 0 {
                assert(hay[q - 1] == 0x0a);
            }
            match lit {
                Some(b) => {
                    let rl = prog.req_lit->0;
                    let k = choose|k: int|
                        q + rl.min_dist <= k && (rl.max_dist matches Some(m) ==> (k <= q + m || m
                            == u32::MAX)) && #[trigger] occurs_at(hay, rl.bytes@, k);
                    assert(k == q);
                    assert(bol_candidate(hay, lit, q));
                },
                None => {
                    assert(bol_candidate(hay, lit, q));
                },
            }
        }
    }
}

/// A single-literal program matches exactly where its bytes occur.
proof fn lemma_literal_only(
    insts: Seq<Inst>,
    lit: Seq<u8>,
    enc: Encoding,
    options: Options,
    hay: Seq<u8>,
    props: Seq<UserProperty>,
    q: int,
)
    requires
        ascii_literal_spec(insts) == Some(lit),
        !options.has(Options::ignorecase_spec()),
        enc.min_len_spec() == 1,
        first_end(insts, enc, hay, hay.len() as int, options, props, 0, q, None) is Some,
    ensures
        occurs_at(hay, lit, q),
{
    let len = hay.len() as int;
    match insts[0] {
        Inst::Literal(v) => {
            assert(ascii_lit(v@) == Some(lit));
            assert(lit_step(enc, hay, len, options, q, v@) is Some);
        },
        Inst::Char(c) => {
            assert(char_step(enc, hay, len, options, q, c) is Some);
            super::plain::lemma_first_byte(enc, hay, q, len);
            assert(hay.subrange(q, q + 1) =~= seq![c as u8]);
        },
        _ => {},
    }
}

/// The position loop of a search, on an engine built for it.
#[verifier::spinoff_prover]
#[verifier::rlimit(100)]
fn search_with<H: Callouts>(
    eng: &mut Engine<H>,
    prog: &Program,
    hay: &[u8],
    enc: Encoding,
    options: Options,
    start: usize,
    from: usize,
    end: usize,
) -> (r: Result<Option<Region>, Error>)
    requires
        old(eng).inv(),
        old(eng).hay@ == hay@,
        old(eng).prog == prog,
        old(eng).enc == enc,
        old(eng).hay_end == hay@.len(),
        from <= end,
        end <= hay@.len(),
        old(eng).base_options == options,
        old(eng).captures@.len() >= 2,
        old(eng).attempt_start == 0,
    ensures
        r matches Err(e) ==> run_error(e.kind),
        r matches Ok(Some(reg)) ==> reg.wf(hay@.len()) && reg.captures@.len() == prog.capture_count,
        plain_program(prog.insts@) ==> (r matches Ok(Some(reg)) ==> first_end(
            prog.insts@,
            enc,
            hay@,
            hay@.len() as int,
            options,
            old(eng).user_props@,
            0,
            reg.span().0 as int,
            None,
        ) == Some(reg.span().1 as int)),
        rep_program(prog) ==> (r matches Ok(Some(reg)) ==> from <= reg.span().0),
        rep_program(prog) ==> (r matches Ok(Some(reg)) ==> first_end(
            prog.insts@,
            enc,
            hay@,
            hay@.len() as int,
            options,
            old(eng).user_props@,
            0,
            reg.span().0 as int,
            None,
        ) == Some(reg.span().1 as int)),
        filters_sound(prog, enc, options, old(eng).user_props@) && first_found_mode(options)
            && hay@.len() < u32::MAX ==> match r {
            Ok(Some(reg)) => from <= reg.span().0 && no_match_between(
                prog.insts@,
                enc,
                hay@,
                options,
                old(eng).user_props@,
                from as int,
                reg.span().0 as int,
            ),
            Ok(None) => no_match_between(
                prog.insts@,
                enc,
                hay@,
                options,
                old(eng).user_props@,
                from as int,
                end + 1,
            ),
            Err(_) => true,
        },
        plain_program(prog.insts@) && old(eng).retry_limit_in_match == 0
            && old(eng).retry_limit_in_search == 0 && prog.insts@.len() < MAX_RUN_DEPTH ==> r is Ok,
{
    let ghost pos0 = from as int;
    let ghost props = old(eng).user_props@;
    let ghost law = filters_sound(prog, enc, options, props) && first_found_mode(options)
        && hay@.len() < u32::MAX;
    let mut pos = from;
    let mut best: Option<Region> = None;
    let whole = options.contains(Options::match_whole_string());
    let lead = prog.lead;
    eng.bol_guaranteed = prog.anchored_bol && !options.contains(Options::notbol()) && !whole
        && enc.min_len() == 1;
    // `pos == end` is a legal start position, so a scan looking for
    // candidate starts must be able to reach it.
    let scan_end = if end < hay.len() { end + 1 } else { hay.len() };
    let find_longest = options.contains(Options::find_longest());
    let find_not_empty = options.contains(Options::find_not_empty());
    // Required-literal filter: a byte sequence every match must contain.
    // `req_q` caches the last occurrence found, so the scan stays linear.
    let req: Option<&ReqLit> = if whole || enc.min_len() != 1 {
        None
    } else {
        match &prog.req_lit {
            Some(l) => Some(l),
            None => None,
        }
    };
    let mut req_q: Option<usize> = None;
    let ghost mut req_from: int = 0;
    let bol_only = prog.anchored_bol && !whole && enc.min_len() == 1;
    // A `^`-anchored pattern whose required literal sits at the match start.
    let bol_lit: Option<&Vec<u8>> = if bol_only {
        match req {
            Some(r) => if r.min_dist == 0 && r.max_dist == Some(0u32) {
                Some(&r.bytes)
            } else {
                None
            },
            None => None,
        }
    } else {
        None
    };
    proof {
        reveal(req_cache);
        reveal(no_match_between);
    }
    while pos <= end
        invariant
            eng.inv(),
            eng.hay@ == hay@,
            eng.prog == prog,
            eng.enc == enc,
            end <= hay@.len(),
            end < hay@.len() ==> scan_end == end + 1,
            end == hay@.len() ==> scan_end == end,
            best matches Some(b) ==> b.wf(hay@.len()) && b.captures@.len() == prog.capture_count,
            eng.base_options == options,
            eng.user_props@ == props,
            eng.bol_guaranteed ==> bol_only,
            bol_only == (prog.anchored_bol && !whole && enc.min_len_spec() == 1),
            whole == options.has(Options::match_whole_string_spec()),
            find_longest == options.has(Options::find_longest_spec()),
            find_not_empty == options.has(Options::find_not_empty_spec()),
            lead == prog.lead,
            req matches Some(rl) ==> prog.req_lit == Some(*rl) && req_from <= pos + rl.min_dist
                && req_cache(hay@, rl.bytes@, req_from, req_q),
            bol_lit matches Some(b) ==> (req matches Some(rl) && b@ == rl.bytes@ && rl.min_dist
                == 0 && rl.max_dist == Some(0u32)),
            law == (filters_sound(prog, enc, options, props) && first_found_mode(options)
                && hay@.len() < u32::MAX),
            eng.retry_limit_in_match == old(eng).retry_limit_in_match,
            eng.retry_limit_in_search == old(eng).retry_limit_in_search,
            pos0 <= pos,
            pos0 == from,
            props == old(eng).user_props@,
            !find_longest ==> best is None,
            plain_program(prog.insts@) ==> eng.captures@.len() >= 2,
            rep_program(prog) ==> eng.captures@.len() >= 2,
            plain_program(prog.insts@) ==> (best matches Some(b) ==> first_end(
                prog.insts@,
                enc,
                hay@,
                hay@.len() as int,
                options,
                props,
                0,
                b.span().0 as int,
                None,
            ) == Some(b.span().1 as int)),
            rep_program(prog) ==> (best matches Some(b) ==> from <= b.span().0),
            rep_program(prog) ==> (best matches Some(b) ==> first_end(
                prog.insts@,
                enc,
                hay@,
                hay@.len() as int,
                options,
                props,
                0,
                b.span().0 as int,
                None,
            ) == Some(b.span().1 as int)),
            law ==> no_match_between(prog.insts@, enc, hay@, options, props, pos0, pos as int),
            pos <= end,
        ensures
            best matches Some(b) ==> b.wf(hay@.len()) && b.captures@.len() == prog.capture_count,
            plain_program(prog.insts@) ==> (best matches Some(b) ==> first_end(
                prog.insts@,
                enc,
                hay@,
                hay@.len() as int,
                options,
                props,
                0,
                b.span().0 as int,
                None,
            ) == Some(b.span().1 as int)),
            rep_program(prog) ==> (best matches Some(b) ==> from <= b.span().0),
            rep_program(prog) ==> (best matches Some(b) ==> first_end(
                prog.insts@,
                enc,
                hay@,
                hay@.len() as int,
                options,
                props,
                0,
                b.span().0 as int,
                None,
            ) == Some(b.span().1 as int)),
            !find_longest ==> best is None,
            law ==> no_match_between(prog.insts@, enc, hay@, options, props, pos0, end + 1),
        decreases end + 1 - pos,
    {
        if whole && pos != start {
            break;
        }
        let ghost top = pos as int;
        // `^`-anchored: only positions after a newline can start a match.
        if bol_only {
            let found = bol_scan(hay, pos, end, scan_end, bol_lit);
            proof {
                if law {
                    let hi = match found {
                        Some(p) => p as int,
                        None => end + 1,
                    };
                    lemma_bol_skip(prog, enc, hay@, options, props, opt_bytes(bol_lit), top, hi);
                    lemma_no_match_join(prog.insts@, enc, hay@, options, props, pos0, top, hi);
                }
            }
            match found {
                Some(p) => pos = p,
                None => break,
            }
        }
        let bol_pos = pos;
        if bol_lit.is_none() {
            match req {
                Some(rl) => {
                    let ghost before = pos as int;
                    let skip = req_skip(hay, rl, prog, pos, end, &mut req_q, Ghost(req_from));
                    proof {
                        req_from = before + rl.min_dist;
                        if law {
                            let hi = match skip {
                                Some(np) => np as int,
                                None => end + 1,
                            };
                            lemma_req_skip(prog, enc, hay@, options, props, *rl, before, hi);
                            lemma_no_match_join(prog.insts@, enc, hay@, options, props, pos0, before, hi);
                        }
                    }
                    match skip {
                        Some(np) => pos = np,
                        None => break,
                    }
                },
                None => {},
            }
        }
        // Skip start positions no match can begin at.
        if bol_lit.is_none() {
            match lead {
                Some(ld) => {
                    if !whole && enc.min_len() == 1 {
                        let ghost before = pos as int;
                        let skip = lead_skip(hay, &ld, pos, end, scan_end);
                        proof {
                            if law {
                                let hi = match skip {
                                    Some(np) => np as int,
                                    None => end + 1,
                                };
                                lemma_lead_skip(prog, enc, hay@, options, props, ld, before, hi);
                                lemma_no_match_join(prog.insts@, enc, hay@, options, props, pos0, before, hi);
                            }
                        }
                        match skip {
                            Some(np) => pos = np,
                            None => break,
                        }
                    }
                },
                None => {},
            }
        }
        // A later filter may have moved `pos` off the line start; rescan
        // rather than attempt here.
        if bol_only && pos != bol_pos && pos != 0 && hay[pos - 1] != 10 {
            continue;
        }
        let hit = eng.attempt(pos)?;
        let skip_to = eng.skip_to;
        proof {
            if law && hit is None {
                reveal(no_match_between);
                lemma_no_match_join(prog.insts@, enc, hay@, options, props, pos0, pos as int, pos + 1);
            }
        }
        match hit {
            Some(r) => {
                let span = r.range();
                if whole && span.end != hay.len() {
                    let n = next_pos(enc, hay, pos);
                    if n <= pos || n > end {
                        break;
                    }
                    pos = n;
                    continue;
                }
                if find_not_empty && r.is_empty_match() {
                    let n = next_pos(enc, hay, pos);
                    if n <= pos || n > end {
                        break;
                    }
                    pos = n;
                    continue;
                }
                if find_longest {
                    let better = match &best {
                        Some(b) => {
                            let br = b.range();
                            (span.end - span.start) > (br.end - br.start)
                        },
                        None => true,
                    };
                    if better {
                        best = Some(r);
                    }
                    let n = next_pos(enc, hay, pos);
                    if n <= pos || n > end {
                        break;
                    }
                    pos = n;
                    continue;
                }
                return Ok(Some(r));
            },
            None => {
                match skip_to {
                    Some(s) => {
                        // Resume at the position (*SKIP) reached, but always
                        // make at least one character of progress.
                        let np = next_pos(enc, hay, pos);
                        let n = if s > np {
                            s
                        } else {
                            np
                        };
                        if n <= pos || n > end {
                            break;
                        }
                        pos = n;
                        continue;
                    },
                    None => {},
                }
                if pos == end {
                    break;
                }
                let n = next_pos(enc, hay, pos);
                if n <= pos || n > end {
                    break;
                }
                pos = n;
            },
        }
    }
    Ok(best)
}

/// Match only at `at` (Oniguruma `onig_match`).
pub fn match_at<H: Callouts>(
    prog: &Program,
    hay: &[u8],
    enc: Encoding,
    options: Options,
    at: usize,
    search_origin: usize,
    param: &mut MatchParam,
    hooks: &H,
    user_props: &Vec<UserProperty>,
) -> (r: Result<Option<Region>, Error>)
    requires
        prog.forward(),
        prog.capture_count >= 1,
        plans_agree(prog.insts@, prog.class_plans@, enc, user_props@),
        lit_bytes_agree(prog.insts@, prog.literal_bytes@, enc),
    ensures
        r matches Err(e) ==> run_error(e.kind),
        r matches Ok(Some(reg)) ==> reg.wf(hay@.len()) && reg.captures@.len() == prog.capture_count,
        at > hay@.len() ==> r matches Ok(None),
        plain_program(prog.insts@) && at <= hay@.len() ==> match r {
            Ok(Some(reg)) => reg.span().0 == at && first_end(
                prog.insts@,
                enc,
                hay@,
                hay@.len() as int,
                options,
                user_props@,
                0,
                at as int,
                None,
            ) == Some(reg.span().1 as int),
            Ok(None) => first_end(
                prog.insts@,
                enc,
                hay@,
                hay@.len() as int,
                options,
                user_props@,
                0,
                at as int,
                None,
            ) is None,
            Err(_) => true,
        },
        rep_program(prog) && at <= hay@.len() ==> match r {
            Ok(Some(reg)) => reg.span().0 == at && first_end(
                prog.insts@,
                enc,
                hay@,
                hay@.len() as int,
                options,
                user_props@,
                0,
                at as int,
                None,
            ) == Some(reg.span().1 as int),
            Ok(None) => first_end(
                prog.insts@,
                enc,
                hay@,
                hay@.len() as int,
                options,
                user_props@,
                0,
                at as int,
                None,
            ) is None,
            Err(_) => true,
        },
        plain_program(prog.insts@) && old(param).retry_limit_in_match == 0
            && old(param).retry_limit_in_search == 0 && prog.insts@.len() < MAX_RUN_DEPTH ==> r is Ok,
{
    if at > hay.len() {
        return Ok(None);
    }
    let mut eng = Engine::new(prog, hay, enc, options, param, hooks, user_props, search_origin);
    let r = eng.attempt(at);
    param.count = eng.count;
    r
}

} // verus!
