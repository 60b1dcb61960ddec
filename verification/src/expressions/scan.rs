//! Find-all scan (`onig_scan`).

use vstd::prelude::*;
use super::error::Error;
use super::param::MatchParam;
use super::exec::search::{first_fit, first_fit_exists, first_fit_unique, fits_somewhere};
use super::region::Region;
use super::Regex;
use super::encoding::Encoding;
use super::exec::vm::run_error;
use super::exec::MAX_RUN_DEPTH;

verus! {

/// The successive non-overlapping occurrences of `lit` in `hay` from `pos`,
/// left to right, each found from the end of the one before.
pub open spec fn literal_hits(hay: Seq<u8>, lit: Seq<u8>, pos: int) -> Seq<(int, int)>
    decreases hay.len() - pos,
{
    if lit.len() > 0 && 0 <= pos <= hay.len() && fits_somewhere(hay, lit, pos, hay.len() as int) {
        proof {
            first_fit_exists(hay, lit, pos, hay.len() as int);
        }
        let p = choose|p: int| first_fit(hay, lit, pos, hay.len() as int, p);
        seq![(p, p + lit.len())] + literal_hits(hay, lit, p + lit.len())
    } else {
        Seq::empty()
    }
}

/// `q` is where the first match from `pos` starts.
pub open spec fn leftmost_start(re: Regex, hay: Seq<u8>, pos: int, q: int) -> bool {
    &&& pos <= q <= hay.len()
    &&& re.first_match_end(hay, q) is Some
    &&& re.no_match_in(hay, pos, q)
}

/// The successive matches from `pos`, left to right: each is the match at
/// the first position where one starts, and the next is looked for from its
/// end, or one byte further when it is empty.
pub open spec fn leftmost_hits(re: Regex, hay: Seq<u8>, pos: int) -> Seq<(int, int)>
    decreases hay.len() + 1 - pos,
{
    if 0 <= pos <= hay.len() && exists|q: int| leftmost_start(re, hay, pos, q) {
        let q = choose|q: int| leftmost_start(re, hay, pos, q);
        let e = re.first_match_end(hay, q)->0;
        let next = if e > q {
            e
        } else {
            q + 1
        };
        seq![(q, e)] + if next <= hay.len() {
            leftmost_hits(re, hay, next)
        } else {
            Seq::empty()
        }
    } else {
        Seq::empty()
    }
}

/// Bytes in the character that starts at `p` of `hay` in `enc`, or one where
/// no whole character starts there.
pub open spec fn char_width(enc: Encoding, hay: Seq<u8>, p: int) -> int {
    match enc.char_len(hay.subrange(p, hay.len() as int)) {
        Some(n) => if n > 0 {
            n as int
        } else {
            1
        },
        None => 1,
    }
}

/// Where a scan looks for the match after one spanning `s..e`: at its end,
/// or one whole character past it when it is empty.
pub open spec fn resume_at(enc: Encoding, hay: Seq<u8>, s: int, e: int) -> int {
    if e > s {
        e
    } else {
        s + char_width(enc, hay, s)
    }
}

/// The whole-match spans of `v`.
pub open spec fn spans(v: Seq<Region>) -> Seq<(int, int)> {
    v.map(|i: int, r: Region| (r.span().0 as int, r.span().1 as int))
}

/// Scan `hay` for successive matches: each search resumes at the end of the
/// last match, or one character past an empty one.
#[verifier::spinoff_prover]
#[verifier::rlimit(40)]
pub fn scan(re: &Regex, hay: &[u8], param: &mut MatchParam) -> (r: Result<Vec<Region>, Error>)
    requires
        re.wf(),
    ensures
        r matches Err(e) ==> run_error(e.kind),
        r matches Ok(v) ==> forall|i: int|
            0 <= i < v@.len() ==> (#[trigger] v@[i]).wf(hay@.len()) && v@[i].captures@.len()
                == re.capture_count_spec(),
        match re.literal() {
            Some(lit) => lit.len() > 0 ==> (r matches Ok(v) && spans(v@) == literal_hits(
                hay@,
                lit,
                0,
            )),
            None => true,
        },
        (re.plain() || re.rep_plain()) ==> (r matches Ok(v) ==> forall|i: int|
            0 <= i < v@.len() ==> re.first_match_end(hay@, (#[trigger] v@[i]).span().0 as int)
                == Some(v@[i].span().1 as int)),
        re.reports_leftmost() && hay@.len() < u32::MAX ==> (r matches Ok(v) ==> spans(v@)
            == leftmost_hits(*re, hay@, 0)),
        re.rep_plain() ==> (r matches Ok(v) ==> forall|i: int, j: int|
            0 <= i && j == i + 1 && j < v@.len() ==> (#[trigger] v@[j]).span().0 >= resume_at(
                re.enc_spec(),
                hay@,
                (#[trigger] v@[i]).span().0 as int,
                v@[i].span().1 as int,
            )),
        re.plain() && old(param).retry_limit_in_match == 0 && old(param).retry_limit_in_search == 0
            && re.program_spec().insts@.len() < MAX_RUN_DEPTH ==> r is Ok,
{
    let ghost law = re.reports_leftmost() && hay@.len() < u32::MAX;
    let mut out: Vec<Region> = Vec::new();
    let mut pos: usize = 0;
    let hl = hay.len();
    while pos <= hl
        invariant_except_break
            re.rep_plain() && out@.len() > 0 ==> pos >= resume_at(
                re.enc_spec(),
                hay@,
                out@.last().span().0 as int,
                out@.last().span().1 as int,
            ),
            law ==> spans(out@) + leftmost_hits(*re, hay@, pos as int) == leftmost_hits(
                *re,
                hay@,
                0,
            ),
        invariant
            hl == hay@.len(),
            re.wf(),
            match re.literal() {
                Some(lit) => lit.len() > 0 ==> spans(out@) + literal_hits(hay@, lit, pos as int)
                    == literal_hits(hay@, lit, 0),
                None => true,
            },
            forall|i: int|
                0 <= i < out@.len() ==> (#[trigger] out@[i]).wf(hay@.len()) && out@[i].captures@.len()
                    == re.capture_count_spec(),
            (re.plain() || re.rep_plain()) ==> forall|i: int|
                0 <= i < out@.len() ==> re.first_match_end(hay@, (#[trigger] out@[i]).span().0 as int)
                    == Some(out@[i].span().1 as int),
            re.rep_plain() ==> forall|i: int, j: int|
                0 <= i && j == i + 1 && j < out@.len() ==> (#[trigger] out@[j]).span().0 >= resume_at(
                    re.enc_spec(),
                    hay@,
                    (#[trigger] out@[i]).span().0 as int,
                    out@[i].span().1 as int,
                ),
            law == (re.reports_leftmost() && hay@.len() < u32::MAX),
            param.retry_limit_in_match == old(param).retry_limit_in_match,
            param.retry_limit_in_search == old(param).retry_limit_in_search,
        ensures
            forall|i: int|
                0 <= i < out@.len() ==> (#[trigger] out@[i]).wf(hay@.len()) && out@[i].captures@.len()
                    == re.capture_count_spec(),
            match re.literal() {
                Some(lit) => lit.len() > 0 ==> spans(out@) == literal_hits(hay@, lit, 0),
                None => true,
            },
            (re.plain() || re.rep_plain()) ==> forall|i: int|
                0 <= i < out@.len() ==> re.first_match_end(hay@, (#[trigger] out@[i]).span().0 as int)
                    == Some(out@[i].span().1 as int),
            re.rep_plain() ==> forall|i: int, j: int|
                0 <= i && j == i + 1 && j < out@.len() ==> (#[trigger] out@[j]).span().0 >= resume_at(
                    re.enc_spec(),
                    hay@,
                    (#[trigger] out@[i]).span().0 as int,
                    out@[i].span().1 as int,
                ),
            law ==> spans(out@) == leftmost_hits(*re, hay@, 0),
        decreases hl + 1 - pos,
    {
        let found = re.search_range_param(hay, pos, hl, param)?;
        let ghost before = out@;
        proof {
            if re.literal() is Some && re.literal()->0.len() > 0 {
                let lit = re.literal()->0;
                match &found {
                    Some(reg) => {
                        first_fit_exists(hay@, lit, pos as int, hl as int);
                        let p = choose|p: int| first_fit(hay@, lit, pos as int, hl as int, p);
                        first_fit_unique(hay@, lit, pos as int, hl as int, p, reg.span().0 as int);
                        assert(literal_hits(hay@, lit, pos as int) == seq![
                            (reg.span().0 as int, reg.span().1 as int),
                        ] + literal_hits(hay@, lit, reg.span().1 as int));
                    },
                    None => {
                        assert(literal_hits(hay@, lit, pos as int) =~= Seq::empty());
                        assert(spans(out@) + Seq::<(int, int)>::empty() =~= spans(out@));
                    },
                }
            }
            if law {
                match &found {
                    Some(reg) => {
                        let q = reg.span().0 as int;
                        assert(leftmost_start(*re, hay@, pos as int, q));
                        let c = choose|c: int| leftmost_start(*re, hay@, pos as int, c);
                        if c < q {
                            assert(re.first_match_end(hay@, c) is None);
                        } else if q < c {
                            assert(re.first_match_end(hay@, q) is None);
                        }
                    },
                    None => {
                        assert(!exists|c: int| leftmost_start(*re, hay@, pos as int, c));
                        assert(leftmost_hits(*re, hay@, pos as int) =~= Seq::empty());
                        assert(spans(out@) + Seq::<(int, int)>::empty() =~= spans(out@));
                    },
                }
            }
        }
        let next = match found {
            Some(r) => {
                let span = r.range();
                out.push(r);
                proof {
                    assert(spans(out@) =~= spans(before).push((span.start as int, span.end as int)));
                    if re.rep_plain() {
                        assert forall|i: int, j: int|
                            0 <= i && j == i + 1 && j < out@.len() implies (#[trigger] out@[j]).span().0
                            >= resume_at(
                            re.enc_spec(),
                            hay@,
                            (#[trigger] out@[i]).span().0 as int,
                            out@[i].span().1 as int,
                        ) by {
                            if j < before.len() {
                                assert(out@[i] == before[i] && out@[j] == before[j]);
                            } else {
                                assert(out@[i] == before.last());
                            }
                        }
                    }
                }
                if span.end == span.start {
                    // Advance past the match, not past the cursor: the search
                    // may have skipped ahead to find this empty match.
                    if span.start >= hl {
                        break;
                    }
                    let step = match re.encoding().mbc_len(&hay[span.start..hl]) {
                        Ok(n) => if n > 0 {
                            n
                        } else {
                            1
                        },
                        Err(_) => 1,
                    };
                    if step > hl - span.start {
                        break;
                    }
                    span.start + step
                } else {
                    span.end
                }
            },
            None => break,
        };
        if next == 0 && out.len() > 0 {
            break;
        }
        // A match that does not move the cursor forward would be found
        // again and again.
        if next <= pos {
            break;
        }
        pos = next;
    }
    Ok(out)
}

} // verus!
