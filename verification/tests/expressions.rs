//! Regex engine tests: unit cases and Oniguruma test-suite vectors.

use std::ops::Range;

use thoth::expressions::{
    find_all_str, is_match_str, CalloutCtx, CalloutResult, Callouts, Encoding, ErrorKind,
    MatchParam, Options, Regex, Syntax,
};

#[test]
fn compile_search_basic() {
    let re = Regex::new("ca+t".as_bytes(), Options::none(), Encoding::UTF8, Syntax::oniguruma())
        .unwrap();
    assert!(re.is_match(b"caaat").unwrap());
    let m = re.search(b"one cat two").unwrap().expect("match");
    assert_eq!(m.range(), 4..7);
}

#[test]
fn stress_plus_and_literal_spans() {
    let plus = Regex::new_str("a+", Options::none(), Syntax::oniguruma()).unwrap();
    let hay = "a".repeat(80) + "b";
    let m = plus.search(hay.as_bytes()).unwrap().unwrap();
    assert_eq!(m.range(), 0..80);
    let lit = Regex::new_str("needle", Options::none(), Syntax::oniguruma()).unwrap();
    let hay = format!("{}needle{}", "x".repeat(400), "y".repeat(400));
    let m = lit.search(hay.as_bytes()).unwrap().unwrap();
    assert_eq!(m.range(), 400..406);
}

#[test]
fn numbered_captures() {
    let re = Regex::new("(ca)+t".as_bytes(), Options::none(), Encoding::UTF8, Syntax::oniguruma())
        .unwrap();
    let m = re.search(b"cacat").unwrap().unwrap();
    assert_eq!(m.range(), 0..5);
    assert_eq!(m.get(1), Some(2..4));
}

#[test]
fn retry_limit_errors() {
    let re = Regex::new("(a+)+b".as_bytes(), Options::none(), Encoding::UTF8, Syntax::oniguruma())
        .unwrap();
    let mut p = MatchParam::default();
    p.retry_limit_in_match = 8;
    let r = re.search_param(b"aaaaaaaaac", &mut p);
    assert!(r.is_err(), "hostile match must hit retry limit, got {r:?}");
}

#[test]
fn ops_are_callable() {
    assert!(is_match_str("ca+t", "caaat").unwrap());
    let hits = find_all_str("ca+t", "one cat two caaat").unwrap();
    assert_eq!(hits.len(), 2);
    assert_eq!(hits[0], 4..7);
}

#[test]
fn utf8_multibyte() {
    let re = Regex::new_str("a.b", Options::none(), Syntax::oniguruma()).unwrap();
    let hay = "a\u{00e9}b";
    let m = re.search(hay.as_bytes()).unwrap().unwrap();
    assert_eq!(m.range(), 0..hay.len());
}

#[test]
fn lookaround_and_named() {
    let re = Regex::new_str(r"(?<=foo)bar", Options::none(), Syntax::oniguruma()).unwrap();
    assert!(re.is_match(b"foobar").unwrap());
    assert!(!re.is_match(b"bar").unwrap());
    let re = Regex::new_str(r"(?<n>ca+)t", Options::none(), Syntax::oniguruma()).unwrap();
    let m = re.search(b"caaat").unwrap().unwrap();
    assert_eq!(m.name("n"), Some(0..4));
}

#[test]
fn possessive_and_atomic() {
    let re = Regex::new_str(r"a*+a", Options::none(), Syntax::oniguruma()).unwrap();
    assert!(!re.is_match(b"aaa").unwrap());
    let re = Regex::new_str(r"(?>a*)a", Options::none(), Syntax::oniguruma()).unwrap();
    assert!(!re.is_match(b"aaa").unwrap());
}

#[test]
fn backref_and_call() {
    let re = Regex::new_str(r"(cat|dog)\1", Options::none(), Syntax::oniguruma()).unwrap();
    assert!(re.is_match(b"catcat").unwrap());
    assert!(!re.is_match(b"catdog").unwrap());
}

#[test]
fn scan_and_regset() {
    let re = Regex::new_str(r"\w+", Options::none(), Syntax::oniguruma()).unwrap();
    let hits = thoth::expressions::scan(&re, b"a bb ccc", &mut MatchParam::default()).unwrap();
    assert_eq!(hits.len(), 3);
    let a = Regex::new_str("cat", Options::none(), Syntax::oniguruma()).unwrap();
    let b = Regex::new_str("dog", Options::none(), Syntax::oniguruma()).unwrap();
    let set = thoth::expressions::RegSet::new(vec![a, b]).unwrap();
    let (i, r) = set.search(b"a dog", &mut MatchParam::default()).unwrap().unwrap();
    assert_eq!(i, 1);
    assert_eq!(r.range(), 2..5);
}

#[test]
fn encodings_utf16_and_latin1() {
    let re = Regex::new(b"a.b", Options::none(), Encoding::ASCII, Syntax::oniguruma()).unwrap();
    assert!(re.is_match(b"axb").unwrap());
    let mut buf = [0u8; 8];
    buf[0] = 0;
    buf[1] = b'a';
    buf[2] = 0;
    buf[3] = b'x';
    buf[4] = 0;
    buf[5] = b'b';
    let re = Regex::new(
        &[0, b'a', 0, b'.', 0, b'b'],
        Options::none(),
        Encoding::UTF16_BE,
        Syntax::oniguruma(),
    )
    .unwrap();
    assert!(re.is_match(&buf[..6]).unwrap());
}

#[test]
fn syntax_python_named() {
    let re = Regex::new_str("(?P<n>foo)", Options::none(), Syntax::python()).unwrap();
    let m = re.search(b"foo").unwrap().unwrap();
    assert_eq!(m.name("n"), Some(0..3));
}

/// A named-callout hook that fails `(*FAIL)` and lets everything else pass.
struct FailNamed;

impl Callouts for FailNamed {
    fn named(&self, ctx: &CalloutCtx) -> CalloutResult {
        if ctx.name == "FAIL" {
            CalloutResult::Fail
        } else {
            CalloutResult::Success
        }
    }
}

#[test]
fn callout_skip_and_user_prop() {
    // (*SKIP) succeeds going forward; it only redirects where the search
    // resumes if the whole attempt at this start fails.
    let re = Regex::new_str(r"a(*SKIP)b", Options::none(), Syntax::oniguruma()).unwrap();
    assert_eq!(re.search(b"ab").unwrap().unwrap().range(), 0..2);
    // On failure the retry happens at the skip point, not past it.
    let re = Regex::new_str(r"[ab](*SKIP)c", Options::none(), Syntax::oniguruma()).unwrap();
    assert_eq!(re.search(b"abc").unwrap().unwrap().range(), 1..3);
    // A sibling alternative at the same start is still tried.
    let re = Regex::new_str(r"(?:a(*SKIP)x|ab)", Options::none(), Syntax::oniguruma()).unwrap();
    assert_eq!(re.search(b"ab").unwrap().unwrap().range(), 0..2);
    // (*FAIL) / (*MISMATCH) are built in and fail where they stand.
    let re = Regex::new_str(r"a(*FAIL)b", Options::none(), Syntax::oniguruma()).unwrap();
    assert!(!re.is_match(b"ab").unwrap());
    let re = Regex::new_str(r"(?:a(*MISMATCH)|b)", Options::none(), Syntax::oniguruma()).unwrap();
    assert_eq!(re.search(b"ab").unwrap().unwrap().range(), 1..2);
    let mut param = MatchParam::default();
    let re = Regex::new_str(r"a(*FAIL)b|ab", Options::none(), Syntax::oniguruma()).unwrap();
    let m = re.search_param_with(b"ab", &mut param, &FailNamed).unwrap();
    assert_eq!(m.unwrap().range(), 0..2);
    let mut re = Regex::new_str(r"\p{Vowel}", Options::none(), Syntax::oniguruma()).unwrap();
    re.define_user_property(thoth::expressions::UserProperty {
        name: String::from("Vowel"),
        ranges: vec![(b'a' as u32, b'a' as u32), (b'e' as u32, b'e' as u32)],
    });
    assert!(re.is_match(b"a").unwrap());
    assert!(!re.is_match(b"b").unwrap());
}

#[test]
fn expressions_demo_op() {
    let hay = "one cat two caaat";
    assert!(is_match_str("ca+t", hay).unwrap());
    let hits = find_all_str("ca+t", hay).unwrap();
    let formatted = thoth::expressions::format_matches(hay, &hits);
    assert!(formatted.contains("4..7 cat"));
    assert!(formatted.contains("12..17 caaat"));
}

#[test]
fn phase2_oniguruma_utf8() {
    let re = |p: &str| Regex::new_str(p, Options::none(), Syntax::oniguruma()).unwrap();
    assert_eq!(re("foo(?=bar)").search(b"foobar").unwrap().unwrap().range(), 0..3);
    assert!(re("foo(?=bar)").search(b"foo").unwrap().is_none());
    assert_eq!(re("foo(?!bar)").search(b"foox").unwrap().unwrap().range(), 0..3);
    assert_eq!(re("(?<=foo)bar").search(b"foobar").unwrap().unwrap().range(), 3..6);
    assert!(re("(?<!foo)bar").search(b"xbar").unwrap().is_some());
    assert!(!re("(?<!foo)bar").is_match(b"foobar").unwrap());
    assert!(!re("a*+a").is_match(b"aaa").unwrap());
    assert!(!re("(?>a*)a").is_match(b"aaa").unwrap());
    let m = re("(?<n>ca+)t").search(b"caaat").unwrap().unwrap();
    assert_eq!(m.name("n"), Some(0..4));
    assert!(re(r"(?<n>cat)\k<n>").is_match(b"catcat").unwrap());
    assert!(!re(r"(?<n>cat)\k<n>").is_match(b"catdog").unwrap());
    assert!(re(r"(a)\g<1>").is_match(b"aa").unwrap());
    assert_eq!(re("(?~abc)").search(b"xxabc").unwrap().unwrap().range(), 0..2);
    assert_eq!(re("(a)?(?(1)a|b)").search(b"aa").unwrap().unwrap().range(), 0..2);
    assert_eq!(re("(a)?(?(1)a|b)").search(b"b").unwrap().unwrap().range(), 0..1);
    assert!(re(r"\p{L}+").is_match(b"Ab").unwrap());
    assert!(re(r"\p{Lu}").is_match(b"A").unwrap());
    assert!(!re(r"\p{Lu}").is_match(b"a").unwrap());
    assert!(re(r"\p{Latin}+").is_match("cafe".as_bytes()).unwrap());
    assert!(re(r"[[:digit:]]+").is_match(b"42").unwrap());
    let re_i = Regex::new_str("foo", Options::ignorecase(), Syntax::oniguruma()).unwrap();
    assert!(re_i.is_match(b"FOO").unwrap());
    let re_i = Regex::new_str("(?i)foo", Options::none(), Syntax::oniguruma()).unwrap();
    assert!(re_i.is_match(b"FoO").unwrap());
    assert!(re(r"a\Kb").search(b"ab").unwrap().unwrap().range() == (1..2));
    assert!(re(r"\d+\D+\d+").is_match(b"12x34").unwrap());
    assert_eq!(re(r"\R").search(b"a\r\nb").unwrap().unwrap().range(), 1..3);
    assert!(re(r"\h+").is_match(b"aF").unwrap());
    assert!(!re(r"\h+").is_match(b"G").unwrap());
    assert!(re(r"\X").is_match("e\u{0301}".as_bytes()).unwrap());
    let re_l = Regex::new_str("a+|aa", Options::find_longest(), Syntax::oniguruma()).unwrap();
    assert_eq!(re_l.search(b"aaa").unwrap().unwrap().range(), 0..3);
    let re_w = Regex::new_str("cat", Options::match_whole_string(), Syntax::oniguruma()).unwrap();
    assert!(re_w.search(b"cat").unwrap().is_some());
    assert!(re_w.search(b"xcat").unwrap().is_none());
    assert!(re(r"a{2,4}").is_match(b"aaa").unwrap());
    assert_eq!(re("xa{3}?").search(b"x").unwrap().unwrap().range(), 0..1);
    assert!(re(r"\Gcat").find_at(b"xcat", 1).unwrap().is_some());
    assert!(re(r"\Gcat").search(b"xcat").unwrap().is_none());
    assert!(re(r"\O").is_match(b"\n").unwrap());
    assert!(!re(r"\N").is_match(b"\n").unwrap());
    let re_ne = Regex::new_str("a*", Options::find_not_empty(), Syntax::oniguruma()).unwrap();
    assert!(re_ne.search(b"bbb").unwrap().is_none());
    let re_dc =
        Regex::new_str("(a)", Options::dont_capture_group(), Syntax::oniguruma()).unwrap();
    assert_eq!(re_dc.capture_count(), 1);
}

#[test]
fn phase3_dialects_encodings_scan_set() {
    let asis = Regex::new_str(r"\d", Options::none(), Syntax::asis()).unwrap();
    assert!(asis.is_match(br"\d").unwrap());
    assert!(!asis.is_match(b"4").unwrap());
    let py = Regex::new_str("(?P<n>foo)", Options::none(), Syntax::python()).unwrap();
    assert_eq!(py.search(b"foo").unwrap().unwrap().name("n"), Some(0..3));
    let perl = Regex::new_str(r"(?i)FOO", Options::none(), Syntax::perl()).unwrap();
    assert!(perl.is_match(b"foo").unwrap());
    let java = Regex::new_str(r"\u0041", Options::none(), Syntax::java()).unwrap();
    assert!(java.is_match(b"A").unwrap());
    let posix = Regex::new_str("a+", Options::none(), Syntax::posix_extended()).unwrap();
    assert!(posix.is_match(b"aaa").unwrap());
    let gnu = Regex::new_str(r"\<cat\>", Options::none(), Syntax::gnu_regex()).unwrap();
    assert!(gnu.is_match(b"a cat b").unwrap());
    let emacs = Regex::new_str(r"foo\|bar", Options::none(), Syntax::emacs()).unwrap();
    assert!(emacs.is_match(b"bar").unwrap());
    let grep = Regex::new_str(r"foo\|bar", Options::none(), Syntax::grep()).unwrap();
    assert!(grep.is_match(b"bar").unwrap());
    let perl_ng = Regex::new_str("(?<n>foo)", Options::none(), Syntax::perl_ng()).unwrap();
    assert_eq!(perl_ng.search(b"foo").unwrap().unwrap().name("n"), Some(0..3));
    let posix_b = Regex::new_str(r"a\{1,3\}", Options::none(), Syntax::posix_basic()).unwrap();
    assert!(posix_b.is_match(b"aa").unwrap());
    let sql = Regex::new_str("a%c", Options::none(), thoth::expressions::sql_syntax()).unwrap();
    assert!(sql.is_match(b"axxxc").unwrap());
    let iso =
        Regex::new(b"a.b", Options::none(), Encoding::ISO_8859_1, Syntax::oniguruma()).unwrap();
    assert!(iso.is_match(&[b'a', 0xe9, b'b']).unwrap());
    let u32be = Regex::new(
        &[0, 0, 0, b'a', 0, 0, 0, b'.', 0, 0, 0, b'b'],
        Options::none(),
        Encoding::UTF32_BE,
        Syntax::oniguruma(),
    )
    .unwrap();
    assert!(u32be
        .is_match(&[0, 0, 0, b'a', 0, 0, 0, b'x', 0, 0, 0, b'b'])
        .unwrap());
    let mut syn = Syntax::oniguruma();
    syn.set_meta_char(1, b'_' as u32);
    assert_eq!(syn.meta_anychar, b'_' as u32);
}

/// Pattern, haystack, whole-match span (or `None` for no match), and the
/// spans of groups 1.. .
type Vector = (&'static str, &'static str, Option<(usize, usize)>, Vec<Option<(usize, usize)>>);

/// Compare one vector, captures included.
fn check_vector(
    name: &str,
    pat: &str,
    hay: &str,
    expect: Option<(usize, usize)>,
    caps: &[Option<(usize, usize)>],
) {
    let re = Regex::new(pat.as_bytes(), Options::none(), Encoding::UTF8, Syntax::oniguruma())
        .unwrap_or_else(|e| panic!("{name} compile {pat:?}: {}", e.render()));
    let got = re
        .search(hay.as_bytes())
        .unwrap_or_else(|e| panic!("{name} search {pat:?}: {}", e.render()));
    match (expect, got) {
        (None, None) => {}
        (Some((s, e)), Some(r)) => {
            assert_eq!(r.range(), s..e, "{name} pattern {pat:?} hay {hay:?}");
            for (k, want) in caps.iter().enumerate() {
                let group = k + 1;
                let have = r.get(group).map(|g: Range<usize>| (g.start, g.end));
                assert_eq!(have, *want, "{name} pattern {pat:?} hay {hay:?} group {group}");
            }
        }
        (expect, got) => {
            panic!("{name} pattern {pat:?} hay {hay:?} expect {expect:?} got {got:?}")
        }
    }
}

fn run_vectors(name: &str, vecs: Vec<Vector>) {
    assert!(!vecs.is_empty(), "expected vectors in {name}");
    for (pat, hay, expect, caps) in vecs {
        check_vector(name, pat, hay, expect, &caps);
    }
}

#[test]
fn harvested_phase2_vectors() {
    let v: Vec<Vector> = vec![
        ("", "", Some((0, 0)), vec![]),
        ("^", "", Some((0, 0)), vec![]),
        ("$", "", Some((0, 0)), vec![]),
        ("\\G", "", Some((0, 0)), vec![]),
        ("\\A", "", Some((0, 0)), vec![]),
        ("\\Z", "", Some((0, 0)), vec![]),
        ("\\z", "", Some((0, 0)), vec![]),
        ("^$", "", Some((0, 0)), vec![]),
        ("\\ca", "\x01", Some((0, 1)), vec![]),
        ("a", "a", Some((0, 1)), vec![]),
        ("aa", "aa", Some((0, 2)), vec![]),
        ("b", "ab", Some((1, 2)), vec![]),
        ("bc", "abc", Some((1, 3)), vec![]),
        ("\\x1f", "\x1f", Some((0, 1)), vec![]),
        ("a(?#....\\\\JJJJ)b", "ab", Some((0, 2)), vec![]),
        (".", "a", Some((0, 1)), vec![]),
        ("..", "ab", Some((0, 2)), vec![]),
        ("\\w", "e", Some((0, 1)), vec![]),
        ("\\W", "e", None, vec![]),
        ("\\s", " ", Some((0, 1)), vec![]),
        ("\\S", "b", Some((0, 1)), vec![]),
        ("\\d", "4", Some((0, 1)), vec![]),
        ("\\D", "4", None, vec![]),
        ("\\b", "z ", Some((0, 0)), vec![]),
        ("\\b", " z", Some((1, 1)), vec![]),
        ("\\B", "zz ", Some((1, 1)), vec![]),
        ("\\B", "z ", Some((2, 2)), vec![]),
        ("\\B", " z", Some((0, 0)), vec![]),
        ("[ab]", "b", Some((0, 1)), vec![]),
        ("[ab]", "c", None, vec![]),
        ("[a-z]", "t", Some((0, 1)), vec![]),
        ("[^a]", "a", None, vec![]),
        ("[^a]", "\n", Some((0, 1)), vec![]),
        ("[\\^]+", "0^^1", Some((1, 3)), vec![]),
        ("[b-]", "b", Some((0, 1)), vec![]),
        ("[b-]", "-", Some((0, 1)), vec![]),
        ("[\\w]", "z", Some((0, 1)), vec![]),
        ("[\\W]", "z", None, vec![]),
        ("[\\d]", "1", Some((0, 1)), vec![]),
        ("[\\D]", "1", None, vec![]),
        ("[\\s]", " ", Some((0, 1)), vec![]),
        ("a?", "", Some((0, 0)), vec![]),
        ("a?", "b", Some((0, 0)), vec![]),
        ("a?", "a", Some((0, 1)), vec![]),
        ("a*", "", Some((0, 0)), vec![]),
        ("a*", "aaa", Some((0, 3)), vec![]),
        ("a*", "baaaa", Some((0, 0)), vec![]),
        ("a+", "", None, vec![]),
        ("a+", "aaaa", Some((0, 4)), vec![]),
        ("a+", "aabbb", Some((0, 2)), vec![]),
        ("a+", "baaaa", Some((1, 5)), vec![]),
        (".?", "", Some((0, 0)), vec![]),
        (".?", "\n", Some((0, 0)), vec![]),
        (".*", "abcde", Some((0, 5)), vec![]),
        (".+", "zdswer\n", Some((0, 6)), vec![]),
        ("(.*)a\\1f", "babfbac", Some((0, 4)), vec![Some((0, 1))]),
        ("a|b", "b", Some((0, 1)), vec![]),
        ("|a", "a", Some((0, 0)), vec![]),
        ("(|a)", "a", Some((0, 0)), vec![Some((0, 0))]),
        ("ab|bc", "bc", Some((0, 2)), vec![]),
        ("z(?:ab|bc)", "zbc", Some((0, 3)), vec![]),
        ("a(?:ab|bc)c", "aabc", Some((0, 4)), vec![]),
        ("ab|(?:ac|az)", "az", Some((0, 2)), vec![]),
        ("a|b|c", "dc", Some((1, 2)), vec![]),
        ("a|b|cd|efg|h|ijk|lmn|o|pq|rstuvwx|yz", "pqr", Some((0, 2)), vec![]),
        ("a|^z", "ba", Some((1, 2)), vec![]),
        ("a|^z", "za", Some((0, 1)), vec![]),
        ("a|\\Gz", "bza", Some((2, 3)), vec![]),
        ("a|\\Gz", "za", Some((0, 1)), vec![]),
        ("a|\\Az", "bza", Some((2, 3)), vec![]),
        ("a|b\\Z", "ba", Some((1, 2)), vec![]),
        ("a|b\\Z", "b", Some((0, 1)), vec![]),
        ("a|b\\z", "b", Some((0, 1)), vec![]),
        ("\\w|\\s", " ", Some((0, 1)), vec![]),
        ("\\w|%", "%", Some((0, 1)), vec![]),
        ("[b-d]|[^e-z]", "a", Some((0, 1)), vec![]),
        ("(?:a|[c-f])|bz", "dz", Some((0, 1)), vec![]),
        ("(?:a|[c-f])|bz", "bz", Some((0, 2)), vec![]),
        ("abc|(?=zz)..f", "zzf", Some((0, 3)), vec![]),
        ("abc|(?!zz)..f", "abf", Some((0, 3)), vec![]),
        ("(?=za)..a|(?=zz)..a", "zza", Some((0, 3)), vec![]),
        ("(?>a|abd)c", "abdc", None, vec![]),
        ("(?>abd|a)c", "abdc", Some((0, 4)), vec![]),
        ("a?|b", "a", Some((0, 1)), vec![]),
        ("a?|b", "b", Some((0, 0)), vec![]),
        ("a*|b*", "ba", Some((0, 0)), vec![]),
        ("a*|b*", "ab", Some((0, 1)), vec![]),
        ("a+|b*", "bbb", Some((0, 3)), vec![]),
        ("a+|b*", "abbb", Some((0, 1)), vec![]),
        ("a+|b+", "", None, vec![]),
        ("(a|b)?", "b", Some((0, 1)), vec![Some((0, 1))]),
        ("(a|b)*", "ba", Some((0, 2)), vec![Some((1, 2))]),
        ("(a|b)+", "bab", Some((0, 3)), vec![Some((2, 3))]),
        ("(ab|ca)+", "caabbc", Some((0, 4)), vec![Some((2, 4))]),
        ("(ab|ca)+", "aabca", Some((1, 5)), vec![Some((3, 5))]),
        ("(ab|ca)+", "abzca", Some((0, 2)), vec![Some((0, 2))]),
        ("(a|bab)+", "ababa", Some((0, 5)), vec![Some((4, 5))]),
        ("(a|bab)+", "ba", Some((1, 2)), vec![Some((1, 2))]),
        ("(?:a|b)(?:a|b)", "ab", Some((0, 2)), vec![]),
        ("(?:a*|b*)(?:a*|b*)", "aaabbb", Some((0, 3)), vec![]),
        ("(?:a*|b*)(?:a+|b+)", "aaabbb", Some((0, 6)), vec![]),
        ("(?:a+|b+){2}", "aaabbb", Some((0, 6)), vec![]),
        ("h{0,}", "hhhh", Some((0, 4)), vec![]),
        ("(?:a+|b+){1,2}", "aaabbb", Some((0, 6)), vec![]),
        ("(?:a+|\\Ab*)cc", "cc", Some((0, 2)), vec![]),
        ("(?:^a+|b+)*c", "aabbbabc", Some((6, 8)), vec![]),
        ("(?:^a+|b+)*c", "aabbbbc", Some((0, 7)), vec![]),
    ];
    run_vectors("phase2", v);
}

#[test]
fn harvested_phase3_vectors() {
    let v: Vec<Vector> = vec![
        ("(a)(b)(c)", "abc", Some((0, 3)), vec![Some((0, 1)), Some((1, 2)), Some((2, 3))]),
        ("((a)b)c", "abc", Some((0, 3)), vec![Some((0, 2)), Some((0, 1))]),
        ("(?:(a)|b)c", "bc", Some((0, 2)), vec![None]),
        ("(a*)(b*)", "aabbb", Some((0, 5)), vec![Some((0, 2)), Some((2, 5))]),
        ("(\\w+)\\s(\\w+)", "ab cd", Some((0, 5)), vec![Some((0, 2)), Some((3, 5))]),
        ("(?<x>a+)b", "aab", Some((0, 3)), vec![Some((0, 2))]),
        ("a{3}", "aaaa", Some((0, 3)), vec![]),
        ("a{2,}", "aaaa", Some((0, 4)), vec![]),
        ("a{1,2}?", "aaa", Some((0, 1)), vec![]),
        ("a+?", "aaa", Some((0, 1)), vec![]),
        ("a*?b", "aab", Some((0, 3)), vec![]),
        ("[0-9]+", "ab123cd", Some((2, 5)), vec![]),
        ("\\d{2}-\\d{2}", "x12-34y", Some((1, 6)), vec![]),
        ("^abc$", "abc", Some((0, 3)), vec![]),
        ("^abc$", "abcd", None, vec![]),
        ("(?m)^b", "a\nb", Some((2, 3)), vec![]),
        ("\\bcat\\b", "a cat!", Some((2, 5)), vec![]),
        ("[[:alpha:]]+", "12ab3", Some((2, 4)), vec![]),
        ("[[:upper:]]", "abC", Some((2, 3)), vec![]),
        ("(?i)abc", "xAbC", Some((1, 4)), vec![]),
        ("\\p{Lu}+", "abCDe", Some((2, 4)), vec![]),
        ("\u{00e9}+", "x\u{00e9}\u{00e9}", Some((1, 5)), vec![]),
        (".", "\u{3042}", Some((0, 3)), vec![]),
        ("(?<=a)b", "ab", Some((1, 2)), vec![]),
        ("(?<!a)b", "ab", None, vec![]),
        ("a(?=b)", "ab", Some((0, 1)), vec![]),
        ("a(?!b)", "ab", None, vec![]),
        ("(a)\\1", "aa", Some((0, 2)), vec![Some((0, 1))]),
        ("(?<q>x)\\k<q>", "xx", Some((0, 2)), vec![Some((0, 1))]),
        ("(?>a+)b", "aab", Some((0, 3)), vec![]),
        ("a++b", "aab", Some((0, 3)), vec![]),
    ];
    run_vectors("phase3", v);
}

#[test]
fn capture_history_tree() {
    let re = Regex::new_str("(?@(ab|c))+", Options::none(), Syntax::oniguruma()).unwrap();
    let m = re.search(b"abcab").unwrap().expect("match");
    let tree = m.history.as_ref().expect("capture history");
    assert_eq!(tree.group, 0);
    assert_eq!(tree.range, 0..5);
    let groups = m.traverse_history();
    assert!(groups.iter().any(|(g, r, d)| *g == 1 && *r == (0..2) && *d == 1));
    assert!(groups.iter().any(|(g, _, d)| *g == 1 && *d >= 1));
    assert!(groups.iter().filter(|(g, _, _)| *g == 1).count() >= 2);
}

#[test]
fn left_recursive_g_is_compile_error() {
    let err =
        Regex::new_str(r"(?<a>\g<a>|x)", Options::none(), Syntax::oniguruma()).unwrap_err();
    assert_eq!(err.kind, ErrorKind::NeverEndingRecursion);
    let err = Regex::new_str(r"(\g<1>)", Options::none(), Syntax::oniguruma()).unwrap_err();
    assert_eq!(err.kind, ErrorKind::NeverEndingRecursion);
    assert!(Regex::new_str(r"(a)\g<1>", Options::none(), Syntax::oniguruma()).is_ok());
    assert!(Regex::new_str(r"(?<a>x\g<a>)", Options::none(), Syntax::oniguruma()).is_ok());
}

#[test]
fn unicode_16_unassigned_is_cn_not_assigned() {
    let assigned =
        Regex::new_str(r"^\p{Assigned}$", Options::none(), Syntax::oniguruma()).unwrap();
    let cn = Regex::new_str(r"^\p{Cn}$", Options::none(), Syntax::oniguruma()).unwrap();
    let lu = Regex::new_str(r"^\p{Lu}$", Options::none(), Syntax::oniguruma()).unwrap();
    let unassigned = "\u{0378}";
    assert!(!assigned.is_match(unassigned.as_bytes()).unwrap());
    assert!(cn.is_match(unassigned.as_bytes()).unwrap());
    assert!(assigned.is_match(b"A").unwrap());
    assert!(lu.is_match(b"A").unwrap());
    assert!(!lu.is_match(unassigned.as_bytes()).unwrap());
}

#[test]
fn text_segment_word_mode() {
    let grapheme = Regex::new_str(r"\X", Options::none(), Syntax::oniguruma()).unwrap();
    assert_eq!(grapheme.search(b"hello").unwrap().unwrap().range(), 0..1);
    let word = Regex::new(
        r"\X".as_bytes(),
        Options::text_segment_word(),
        Encoding::UTF8,
        Syntax::oniguruma(),
    )
    .unwrap();
    assert_eq!(word.search(b"hello world").unwrap().unwrap().range(), 0..5);
    let bound = Regex::new(
        r"\y".as_bytes(),
        Options::text_segment_word(),
        Encoding::UTF8,
        Syntax::oniguruma(),
    )
    .unwrap();
    assert_eq!(bound.search(b"hello").unwrap().unwrap().range(), 0..0);
}

#[test]
fn count_callout_persists_on_match_param() {
    let re = Regex::new_str("a(*COUNT)", Options::none(), Syntax::oniguruma()).unwrap();
    let mut p = MatchParam::default();
    assert!(re.search_param(b"a", &mut p).unwrap().is_some());
    assert!(re.search_param(b"a", &mut p).unwrap().is_some());
    assert_eq!(p.count, 2);
    assert!(re.search_param(b"b", &mut p).unwrap().is_none());
    assert_eq!(p.count, 2);
}

#[test]
fn hex_escapes_read_their_digit_runs() {
    let re = Regex::new_str(r"\x{263a}\x41B", Options::none(), Syntax::oniguruma()).unwrap();
    let m = re.search("x\u{263a}AB".as_bytes()).unwrap().expect("match");
    assert_eq!(m.range(), 1..6);
    let cls = Regex::new_str(r"[\x41-\x43]+", Options::none(), Syntax::oniguruma()).unwrap();
    assert_eq!(cls.search(b"xxABCx").unwrap().unwrap().range(), 2..5);
}

#[test]
fn class_control_escapes() {
    let re = Regex::new_str(r"[\e\r]+", Options::none(), Syntax::oniguruma()).unwrap();
    assert_eq!(re.search(b"a\x1b\rb").unwrap().unwrap().range(), 1..3);
    let ctl = Regex::new_str(r"[\cA]", Options::none(), Syntax::oniguruma()).unwrap();
    assert_eq!(ctl.search(b"xA\x01").unwrap().unwrap().range(), 2..3);
}

#[test]
fn quantifier_suffixes() {
    let lazy = Regex::new_str("a+?", Options::none(), Syntax::oniguruma()).unwrap();
    assert_eq!(lazy.search(b"aaa").unwrap().unwrap().range(), 0..1);
    let possessive = Regex::new_str("a++a", Options::none(), Syntax::oniguruma()).unwrap();
    assert!(possessive.search(b"aaa").unwrap().is_none());
    let fixed = Regex::new_str("a{2}?", Options::none(), Syntax::oniguruma()).unwrap();
    assert_eq!(fixed.search(b"b").unwrap().unwrap().range(), 0..0);
    assert_eq!(fixed.search(b"aaa").unwrap().unwrap().range(), 0..2);
}

#[test]
fn capture_history_holds_each_span_once() {
    let re = Regex::new_str("(?@a)+", Options::none(), Syntax::oniguruma()).unwrap();
    let m = re.search(b"aaa").unwrap().expect("match");
    let groups = m.traverse_history();
    assert_eq!(groups.len(), 4);
    assert!(groups.iter().any(|(g, r, d)| *g == 1 && *r == (0..1) && *d == 1));
    assert!(groups.iter().any(|(g, r, d)| *g == 1 && *r == (1..2) && *d == 1));
    assert!(groups.iter().any(|(g, r, d)| *g == 1 && *r == (2..3) && *d == 1));
}

#[test]
fn backrefs_repeat_the_group_text() {
    let re = Regex::new_str(r"(a)\1", Options::none(), Syntax::oniguruma()).unwrap();
    assert_eq!(re.search(b"xaa").unwrap().unwrap().range(), 1..3);
    assert!(re.search(b"aA").unwrap().is_none());
    let folded = Regex::new_str(r"(?i)(a)\1", Options::none(), Syntax::oniguruma()).unwrap();
    assert_eq!(folded.search(b"aA").unwrap().unwrap().range(), 0..2);
}

#[test]
fn general_newline_and_text_segment() {
    let nl = Regex::new_str(r"x\Ry", Options::none(), Syntax::oniguruma()).unwrap();
    assert_eq!(nl.search(b"x\r\ny").unwrap().unwrap().range(), 0..4);
    assert_eq!(nl.search(b"x\ny").unwrap().unwrap().range(), 0..3);
    let seg = Regex::new_str(r"\X", Options::none(), Syntax::oniguruma()).unwrap();
    assert_eq!(seg.search("e\u{301}x".as_bytes()).unwrap().unwrap().range(), 0..3);
}

#[test]
fn undecodable_pattern_is_refused() {
    assert!(Regex::new(b"a\xff", Options::none(), Encoding::UTF8, Syntax::oniguruma()).is_err());
    assert!(Regex::new(b"a\xff", Options::none(), Encoding::ISO_8859_1, Syntax::oniguruma()).is_ok());
}

#[test]
fn named_callout_parts_are_read() {
    assert!(Regex::new_str("(*FAIL)", Options::none(), Syntax::oniguruma()).is_ok());
    assert!(Regex::new_str("(*FAIL[]x)", Options::none(), Syntax::oniguruma()).is_err());
}

#[test]
fn comments_and_option_groups() {
    let re = Regex::new_str("a(?#note)b", Options::none(), Syntax::oniguruma()).unwrap();
    assert_eq!(re.search(b"xab").unwrap().unwrap().range(), 1..3);
    assert!(Regex::new_str("a(?#note", Options::none(), Syntax::oniguruma()).is_err());
    let folded = Regex::new_str("(?i:ab)c", Options::none(), Syntax::oniguruma()).unwrap();
    assert_eq!(folded.search(b"ABc").unwrap().unwrap().range(), 0..3);
    assert!(folded.search(b"ABC").unwrap().is_none());
    assert!(Regex::new_str("(?q)", Options::none(), Syntax::oniguruma()).is_err());
}

#[test]
fn octal_escapes_in_classes() {
    let brace = Regex::new_str(r"[\o{101}]", Options::none(), Syntax::oniguruma()).unwrap();
    assert_eq!(brace.search(b"xA").unwrap().unwrap().range(), 1..2);
    let three = Regex::new_str(r"[\101]", Options::none(), Syntax::oniguruma()).unwrap();
    assert_eq!(three.search(b"xA").unwrap().unwrap().range(), 1..2);
}
