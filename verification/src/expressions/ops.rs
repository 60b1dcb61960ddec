//! Whole-operation helpers: callable by a test, a CLI and an example.

use vstd::prelude::*;
use core::ops::Range;
use super::encoding::Encoding;
use super::error::Error;
use super::param::MatchParam;
use super::exec::search::fits_somewhere;
use super::parse::{decoded, lemma_text_str_decodes, text_chars, text_from};
use super::exec::search::{lemma_no_options_literal_mode, literal_mode};
use super::scan::{leftmost_hits, literal_hits, resume_at, scan, spans};
use super::syntax::{Options, Syntax};
use super::Regex;
use crate::text::{decimal, push_decimal};
use vstd::string::StringSliceAdditionalSpecFns;
use vstd::utf8::{decode_utf8, encode_utf8, is_char_boundary};

verus! {

/// The ranges `v` are the spans of `re`'s scan of `hay`: every one a match
/// that starts there, and, when `re` reports leftmost matches, the
/// successive leftmost ones.
pub open spec fn scan_ranges(re: Regex, hay: Seq<u8>, v: Seq<Range<usize>>) -> bool {
    &&& forall|i: int| 0 <= i < v.len() ==> (#[trigger] v[i]).start <= v[i].end <= hay.len()
    &&& (re.plain() || re.rep_plain()) ==> forall|i: int|
        0 <= i < v.len() ==> re.first_match_end(hay, (#[trigger] v[i]).start as int) == Some(
            v[i].end as int,
        )
    &&& re.rep_plain() ==> forall|i: int, j: int|
        0 <= i && j == i + 1 && j < v.len() ==> (#[trigger] v[j]).start >= resume_at(
            re.enc_spec(),
            hay,
            (#[trigger] v[i]).start as int,
            v[i].end as int,
        )
    &&& re.reports_leftmost() && hay.len() < u32::MAX ==> v.map(
        |i: int, g: Range<usize>| (g.start as int, g.end as int),
    ) == leftmost_hits(re, hay, 0)
}

/// Grep-like: the byte ranges of the successive matches of `pattern` in
/// `hay`.
pub fn find_all(pattern: &[u8], hay: &[u8], encoding: Encoding, syntax: Syntax, options: Options) -> (r:
    Result<Vec<Range<usize>>, Error>)
    ensures
        r matches Ok(v) ==> exists|re: Regex|
            re.wf() && re.enc_spec() == encoding && re.syntax_spec() == syntax
                && re.options_spec().0 == options.0 | syntax.options.0 && #[trigger] scan_ranges(
                re,
                hay@,
                v@,
            ),
        decoded(encoding, pattern@, 0) is None ==> r is Err,
        ({
            let d = decoded(encoding, pattern@, 0);
            d is Some && 0 < d->0.len() < usize::MAX && text_from(syntax, d->0, 0) && literal_mode(
                Options(options.0 | syntax.options.0),
                encoding,
            ) ==> (r matches Ok(v) && v@.map(|i: int, g: Range<usize>| (g.start as int, g.end as int))
                == literal_hits(hay@, Seq::new(d->0.len(), |k: int| d->0[k].1 as u8), 0))
        }),
{
    let re = Regex::new(pattern, options, encoding, syntax)?;
    let mut param = MatchParam::new();
    let hits = scan(&re, hay, &mut param)?;
    let mut out: Vec<Range<usize>> = Vec::new();
    let mut i: usize = 0;
    while i < hits.len()
        invariant
            i <= hits@.len(),
            out@.len() == i,
            forall|k: int| 0 <= k < hits@.len() ==> (#[trigger] hits@[k]).wf(hay@.len()),
            forall|k: int|
                0 <= k < i ==> (#[trigger] out@[k]).start == hits@[k].span().0 && out@[k].end
                    == hits@[k].span().1,
        decreases hits@.len() - i,
    {
        let r = hits[i].range();
        proof {
            assert(hits@[i as int].wf(hay@.len()));
            assert(hits@[i as int].captures@.len() >= 1);
        }
        out.push(r);
        i = i + 1;
    }
    proof {
        assert forall|k: int| 0 <= k < out@.len() implies (#[trigger] out@[k]).start <= out@[k].end
            <= hay@.len() by {
            assert(hits@[k].wf(hay@.len()));
        }
        assert(out@.map(|i: int, g: Range<usize>| (g.start as int, g.end as int)) =~= spans(
            hits@,
        ));
        assert(scan_ranges(re, hay@, out@));
    }
    let r: Result<Vec<Range<usize>>, Error> = Ok(out);
    proof {
        let v = r->Ok_0;
        assert(v@ == out@);
        assert(scan_ranges(re, hay@, v@));
    }
    r
}

/// UTF-8 convenience for `find_all`.
pub fn find_all_str(pattern: &str, hay: &str) -> (r: Result<Vec<Range<usize>>, Error>)
    ensures
        r matches Ok(v) ==> exists|re: Regex|
            re.wf() && re.enc_spec() == Encoding::UTF8 && re.syntax_spec() == Syntax::oniguruma_spec()
                && #[trigger] scan_ranges(re, hay.spec_bytes(), v@),
        text_chars(Syntax::oniguruma_spec(), pattern@) && 0 < pattern@.len() < usize::MAX ==> (r matches Ok(
            v,
        ) && v@.map(|i: int, g: Range<usize>| (g.start as int, g.end as int)) == literal_hits(
            hay.spec_bytes(),
            Seq::new(pattern@.len(), |k: int| pattern@[k] as u8),
            0,
        )),
{
    proof {
        if text_chars(Syntax::oniguruma_spec(), pattern@) {
            lemma_text_str_decodes(Syntax::oniguruma_spec(), pattern);
        }
        lemma_no_options_literal_mode(Encoding::UTF8);
    }
    find_all(pattern.as_bytes(), hay.as_bytes(), Encoding::UTF8, Syntax::oniguruma(), Options::none())
}

/// Does `pattern` match anywhere in `hay`? When it does, for a plain
/// pattern, a match starts somewhere; for a pattern that is one ASCII
/// literal, exactly when its bytes occur.
pub fn is_match_str(pattern: &str, hay: &str) -> (r: Result<bool, Error>)
    ensures
        r matches Ok(b) ==> exists|re: Regex|
            re.wf() && re.enc_spec() == Encoding::UTF8 && re.syntax_spec() == Syntax::oniguruma_spec()
                && (#[trigger] re.plain() && b ==> exists|s: int|
                #[trigger] re.first_match_end(hay.spec_bytes(), s) is Some) && (re.literal() matches Some(
                lit) ==> b == (lit.len() > 0 && fits_somewhere(
                hay.spec_bytes(),
                lit,
                0,
                hay.spec_bytes().len() as int,
            ))),
        text_chars(Syntax::oniguruma_spec(), pattern@) && 0 < pattern@.len() < usize::MAX ==> r
            == Ok::<bool, Error>(fits_somewhere(
            hay.spec_bytes(),
            Seq::new(pattern@.len(), |k: int| pattern@[k] as u8),
            0,
            hay.spec_bytes().len() as int,
        )),
{
    proof {
        if text_chars(Syntax::oniguruma_spec(), pattern@) {
            lemma_text_str_decodes(Syntax::oniguruma_spec(), pattern);
        }
        lemma_no_options_literal_mode(Encoding::UTF8);
    }
    let re = Regex::new(pattern.as_bytes(), Options::none(), Encoding::UTF8, Syntax::oniguruma())?;
    let r = re.is_match(hay.as_bytes());
    proof {
        if r is Ok {
            let b = r->Ok_0;
            assert(re.plain() && b ==> exists|s: int|
                #[trigger] re.first_match_end(hay.spec_bytes(), s) is Some);
        }
    }
    r
}

/// What `str::get` returns for the byte range `start..end` of `s`: the
/// characters those bytes of its UTF-8 encoding decode to, or nothing when
/// the range is reversed, runs past the end or splits a character.
pub open spec fn str_slice(s: Seq<char>, start: usize, end: usize) -> Option<Seq<char>> {
    let b = encode_utf8(s);
    if start <= end <= b.len() && is_char_boundary(b, start as int) && is_char_boundary(
        b,
        end as int,
    ) {
        Some(decode_utf8(b.subrange(start as int, end as int)))
    } else {
        None
    }
}

/// `str::get(start..end)` from std: `Some` of the substring exactly when
/// both ends lie on character boundaries within the string and `start` is
/// not past `end`, as std documents.
#[verifier::external_body]
fn str_get(s: &str, start: usize, end: usize) -> (r: Option<&str>)
    ensures
        match r {
            Some(t) => str_slice(s@, start, end) == Some(t@),
            None => str_slice(s@, start, end) is None,
        },
{
    s.get(start..end)
}

/// One line of `format_matches`.
pub open spec fn match_line(hay: Seq<char>, r: Range<usize>) -> Seq<char> {
    decimal(r.start as nat) + ".."@ + decimal(r.end as nat) + " "@ + (match str_slice(
        hay,
        r.start,
        r.end,
    ) {
        Some(t) => t,
        None => Seq::empty(),
    }) + "\n"@
}

/// The lines for the first `n` ranges.
pub open spec fn match_lines(hay: Seq<char>, ranges: Seq<Range<usize>>, n: int) -> Seq<char>
    decreases n,
{
    if n <= 0 || n > ranges.len() {
        Seq::empty()
    } else {
        match_lines(hay, ranges, n - 1) + match_line(hay, ranges[n - 1])
    }
}

/// `start..end fragment` per range, one per line, for a CLI or example.
pub fn format_matches(hay: &str, ranges: &[Range<usize>]) -> (r: String)
    ensures
        r@ == match_lines(hay@, ranges@, ranges@.len() as int),
{
    let mut s = String::new();
    let mut i: usize = 0;
    while i < ranges.len()
        invariant
            i <= ranges@.len(),
            s@ == match_lines(hay@, ranges@, i as int),
        decreases ranges@.len() - i,
    {
        let r = &ranges[i];
        let frag = match str_get(hay, r.start, r.end) {
            Some(t) => t,
            None => "",
        };
        proof {
            reveal_strlit("");
        }
        push_decimal(&mut s, r.start);
        s.append("..");
        push_decimal(&mut s, r.end);
        s.append(" ");
        s.append(frag);
        s.append("\n");
        proof {
            reveal_strlit("..");
            reveal_strlit(" ");
            reveal_strlit("\n");
            assert(s@ =~= match_lines(hay@, ranges@, i as int) + match_line(hay@, ranges@[i as int]));
        }
        i = i + 1;
    }
    s
}

} // verus!
