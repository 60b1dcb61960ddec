//! Concrete cases of the library's laws, its error kinds, and the std and
//! outside calls its contracts rest on.

use thoth::a11y::{label, live};
use thoth::expressions::{
    format_matches, Encoding, Error, ErrorKind, MatchParam, Options, RegSet, Regex, Syntax,
};
use thoth::expressions::compat::{enc_from_id, syntax_from_id};
use thoth::expressions::set::leftmost;
use thoth::symbols::html;

fn onig(p: &str) -> Regex {
    Regex::new_str(p, Options::none(), Syntax::oniguruma()).unwrap()
}

#[test]
fn escaped_label_cannot_break_out() {
    let s = label::img("x", "a<b\"c&d");
    assert_eq!(s, "<span role=\"img\" aria-label=\"a&lt;b&quot;c&amp;d\">x</span>");
    let inner = &s["<span role=\"img\" aria-label=\"".len()..s.len() - "\">x</span>".len()];
    assert!(!inner.contains('"') && !inner.contains('<'));
}

#[test]
fn plain_label_is_kept() {
    assert_eq!(label::img("x", "verified"), "<span role=\"img\" aria-label=\"verified\">x</span>");
    assert_eq!(
        label::named("go <now>", "next"),
        "<span aria-label=\"next\">go &lt;now></span>"
    );
}

#[test]
fn escaped_text_cannot_open_a_tag() {
    assert_eq!(
        live::polite("<b>&"),
        "<div role=\"status\" aria-live=\"polite\">&lt;b&gt;&amp;</div>"
    );
    assert_eq!(
        live::assertive("x"),
        "<div role=\"status\" aria-live=\"assertive\">x</div>"
    );
}

#[test]
fn labelled_is_img() {
    assert_eq!(html::labelled("x", "say \"hi\""), label::img("x", "say \"hi\""));
    assert_eq!(html::labelled("x", "a&b"), label::img("x", "a&b"));
    assert_eq!(html::labelled("x", "a&b"), "<span role=\"img\" aria-label=\"a&amp;b\">x</span>");
}

#[test]
fn literal_search_is_first_occurrence() {
    let re = onig("ab");
    assert_eq!(re.search(b"xabab").unwrap().unwrap().range(), 1..3);
    let mut p = MatchParam::default();
    assert_eq!(re.search_range_param(b"xabab", 2, 5, &mut p).unwrap().unwrap().range(), 3..5);
    assert!(re.search(b"xbaa").unwrap().is_none());
    assert!(re.is_match(b"xab").unwrap());
    assert!(!re.is_match(b"xba").unwrap());
    // `range` bounds where a match starts, not where it ends.
    assert_eq!(re.search_range_param(b"xab", 0, 2, &mut p).unwrap().unwrap().range(), 1..3);
    let cat = onig("cat");
    let cat_opt = onig("ca?t");
    assert_eq!(cat.search_range_param(b"xcat", 0, 1, &mut p).unwrap().unwrap().range(), 1..4);
    assert_eq!(cat_opt.search_range_param(b"xcat", 0, 1, &mut p).unwrap().unwrap().range(), 1..4);
    assert!(cat.search_range_param(b"xxcat", 0, 1, &mut p).unwrap().is_none());
}

#[test]
fn search_range_outside_haystack_is_invalid_argument() {
    let re = onig("a");
    let mut p = MatchParam::default();
    let e = re.search_range_param(b"abc", 4, 3, &mut p).unwrap_err();
    assert_eq!(e.kind, ErrorKind::InvalidArgument);
    let e = re.search_range_param(b"abc", 0, 9, &mut p).unwrap_err();
    assert_eq!(e.kind, ErrorKind::InvalidArgument);
}

#[test]
fn compile_errors_carry_a_position() {
    let e = Regex::new_str("(a", Options::none(), Syntax::oniguruma()).unwrap_err();
    assert_eq!(e.kind, ErrorKind::Compile);
    assert!(e.position.is_some());
    let e = Regex::new_str("a)", Options::none(), Syntax::oniguruma()).unwrap_err();
    assert_eq!(e.kind, ErrorKind::Compile);
    assert_eq!(e.render(), "compile error at byte 1: unmatched close parenthesis");
}

#[test]
fn deep_nesting_is_parse_depth_limit() {
    let pat = "(".repeat(300) + &")".repeat(300);
    let e = Regex::new_str(&pat, Options::none(), Syntax::oniguruma()).unwrap_err();
    assert_eq!(e.kind, ErrorKind::ParseDepthLimit);
    let ok = "(".repeat(50) + "a" + &")".repeat(50);
    assert!(Regex::new_str(&ok, Options::none(), Syntax::oniguruma()).is_ok());
}

#[test]
fn invalid_pattern_bytes_are_invalid_encoding() {
    let e = Regex::new(&[b'a', 0xff], Options::none(), Encoding::UTF8, Syntax::oniguruma())
        .unwrap_err();
    assert_eq!(e.kind, ErrorKind::InvalidEncoding);
}

#[test]
fn match_limits_are_errors() {
    let mut p = MatchParam::default();
    p.stack_limit = 2;
    let e = onig("a+").search_param(b"aaaa", &mut p).unwrap_err();
    assert_eq!(e.kind, ErrorKind::MatchStackLimit);

    let mut p = MatchParam::unlimited();
    p.retry_limit_in_search = 3;
    let e = onig("(?:a|b)+c").search_param(b"abababab", &mut p).unwrap_err();
    assert_eq!(e.kind, ErrorKind::RetryLimitSearch);

    let mut p = MatchParam::default();
    p.subexp_call_limit = 1;
    let e = onig(r"(a)\g<1>\g<1>").search_param(b"aaa", &mut p).unwrap_err();
    assert_eq!(e.kind, ErrorKind::SubexpCallLimit);

    let e = onig("a(*ERROR)").search(b"a").unwrap_err();
    assert_eq!(e.kind, ErrorKind::InvalidArgument);
}

#[test]
fn error_render_names_the_kind() {
    assert_eq!(Error::compile(3, "x").render(), "compile error at byte 3: x");
    assert_eq!(
        Error::kind_msg(ErrorKind::MatchStackLimit, "deep").render(),
        "match stack limit: deep"
    );
}

#[test]
fn unicode_category_comes_from_the_tables() {
    // U+00C9 is an upper-case letter, U+00E9 a lower-case one.
    assert!(onig(r"\p{Lu}").is_match("\u{c9}".as_bytes()).unwrap());
    assert!(!onig(r"\p{Lu}").is_match("\u{e9}".as_bytes()).unwrap());
    assert!(onig(r"\p{Ll}").is_match("\u{e9}".as_bytes()).unwrap());
}

#[test]
fn posix_alpha_uses_std_alphabetic() {
    assert!(onig("[[:alpha:]]").is_match("\u{e9}".as_bytes()).unwrap());
    assert!(!onig("[[:alpha:]]").is_match("\u{2013}".as_bytes()).unwrap());
}

#[test]
fn ignorecase_folds_beyond_ascii() {
    let re = Regex::new_str("\u{c9}", Options::ignorecase(), Syntax::oniguruma()).unwrap();
    assert!(re.is_match("\u{e9}".as_bytes()).unwrap());
    // A range matches the upper-case counterpart of a lower-case letter.
    let re = onig("(?i)[\u{c0}-\u{de}]");
    assert!(re.is_match("\u{e0}".as_bytes()).unwrap());
}

#[test]
fn format_matches_skips_split_characters() {
    let hay = "a\u{e9}b";
    assert_eq!(format_matches(hay, &[1..3]), "1..3 \u{e9}\n");
    assert_eq!(format_matches(hay, &[1..2]), "1..2 \n");
    assert_eq!(format_matches(hay, &[0..1, 3..4]), "0..1 a\n3..4 b\n");
}

#[test]
fn regset_refuses_mixed_encodings_and_longest() {
    let a = onig("a");
    let b = Regex::new(b"b", Options::none(), Encoding::ASCII, Syntax::oniguruma()).unwrap();
    assert_eq!(RegSet::new(vec![a, b]).err().unwrap().kind, ErrorKind::InvalidArgument);
    let l = Regex::new_str("a", Options::find_longest(), Syntax::oniguruma()).unwrap();
    assert_eq!(RegSet::new(vec![l]).err().unwrap().kind, ErrorKind::InvalidArgument);
    let mut s = RegSet::new(vec![onig("x")]).unwrap();
    let c = Regex::new(b"c", Options::none(), Encoding::ASCII, Syntax::oniguruma()).unwrap();
    assert!(s.add(c).is_err());
    assert_eq!(s.len(), 1);
    assert!(s.add(onig("y")).is_ok());
    assert_eq!(s.len(), 2);
    assert!(s.get(2).is_none());
}

#[test]
fn scan_advances_past_empty_matches() {
    let re = onig("a*");
    let hits = thoth::expressions::scan(&re, b"baa", &mut MatchParam::default()).unwrap();
    let spans: Vec<_> = hits.iter().map(|r| r.range()).collect();
    assert_eq!(spans, vec![0..0, 1..3, 3..3]);
}

#[test]
fn scan_of_literal_lists_every_disjoint_occurrence() {
    let re = onig("ab");
    let hits = thoth::expressions::scan(&re, b"abxab ab", &mut MatchParam::default()).unwrap();
    let spans: Vec<_> = hits.iter().map(|r| r.range()).collect();
    assert_eq!(spans, vec![0..2, 3..5, 6..8]);
    let re = onig("aa");
    let hits = thoth::expressions::scan(&re, b"aaaaa", &mut MatchParam::default()).unwrap();
    let spans: Vec<_> = hits.iter().map(|r| r.range()).collect();
    assert_eq!(spans, vec![0..2, 2..4]);
}

fn hit(start: usize, end: usize) -> Option<thoth::expressions::Region> {
    Some(thoth::expressions::Region { captures: vec![Some(start..end)], names: vec![], history: None })
}

#[test]
fn leftmost_hit_wins_and_lower_index_breaks_ties() {
    assert!(leftmost(vec![None, None]).is_none());
    let (i, r) = leftmost(vec![hit(4, 5), None, hit(2, 9), hit(2, 3)]).unwrap();
    assert_eq!(i, 2);
    assert_eq!(r.range(), 2..9);
    let (i, _) = leftmost(vec![None, hit(0, 0)]).unwrap();
    assert_eq!(i, 1);
}

#[test]
fn regset_reports_the_leftmost_member() {
    let s = RegSet::new(vec![onig("c"), onig("b"), onig("[bc]")]).unwrap();
    let (i, r) = s.search(b"abc", &mut MatchParam::default()).unwrap().unwrap();
    assert_eq!(i, 1);
    assert_eq!(r.range(), 1..2);
    let latin = |p: &[u8]| {
        Regex::new(p, Options::none(), Encoding::ISO_8859_1, Syntax::oniguruma()).unwrap()
    };
    let s = RegSet::new(vec![latin(b"z"), latin(b"^q|y"), latin(b"x.y")]).unwrap();
    let (i, r) = s.search(b"axzyq", &mut MatchParam::default()).unwrap().unwrap();
    assert_eq!((i, r.range()), (2, 1..4));
    assert!(s.search(b"aaa", &mut MatchParam::default()).unwrap().is_none());
}

fn nests(t: &thoth::expressions::CaptureTree) -> bool {
    t.children.iter().all(|c| t.range.start <= c.range.start && c.range.end <= t.range.end && nests(c))
}

#[test]
fn capture_history_nests_and_walks_in_preorder() {
    let re = Regex::new_str("(?@a(?@b)(?@c))x", Options::none(), Syntax::oniguruma()).unwrap();
    let m = re.search(b"zabcx").unwrap().unwrap();
    let tree = m.history.as_ref().unwrap();
    assert!(nests(tree));
    assert_eq!(tree.range, 1..5);
    let walk = m.traverse_history();
    // Spans are filed in the order their groups close, so the inner groups
    // arrive before the group that holds them.
    assert_eq!(walk, vec![(0, 1..5, 0), (2, 2..3, 1), (3, 3..4, 1), (1, 1..4, 1)]);
}

#[test]
fn previous_character_start_steps_back_one_character() {
    let h = [0x61u8, 0xC3, 0xA9];
    assert_eq!(Encoding::UTF8.prev_char_start(&h, 0, 3), Some(1));
    assert_eq!(Encoding::UTF8.prev_char_start(&h, 2, 3), Some(2));
    assert_eq!(Encoding::UTF8.prev_char_start(&h, 0, 1), Some(0));
    assert_eq!(Encoding::UTF8.prev_char_start(&h, 0, 0), None);
    let w = [0x61u8, 0x00, 0x34, 0xD8, 0x1E, 0xDD];
    assert_eq!(Encoding::UTF16_LE.prev_char_start(&w, 0, 6), Some(2));
    assert_eq!(Encoding::UTF16_LE.prev_char_start(&w, 4, 6), Some(4));
    assert_eq!(Encoding::UTF16_LE.prev_char_start(&w, 0, 1), None);
    assert_eq!(Encoding::UTF32_BE.prev_char_start(&[0, 0, 0, 0x61], 0, 4), Some(0));
}

#[test]
fn named_group_scan_reads_past_escapes_and_classes() {
    use_scan(b"a(?<n>b)", true);
    use_scan(b"(?'n'b)", true);
    use_scan(b"(?@<n>b)", true);
    use_scan(b"(?P<n>b)", true);
    use_scan(b"(?<=a)b", false);
    use_scan(b"(?<!a)b", false);
    use_scan(b"[(?<n>b)]", false);
    use_scan(b"\\(?<n>b)", false);
    use_scan(b"x\\", false);
    assert!(!thoth::expressions::parse::scan_has_named_group(b"(?<n>b)", Syntax::asis()));
}

fn use_scan(p: &[u8], want: bool) {
    assert_eq!(thoth::expressions::parse::scan_has_named_group(p, Syntax::oniguruma()), want);
}

#[test]
fn class_bitmap_agrees_with_membership_on_ascii() {
    let re = onig("[a-c\\d_]");
    let ci = onig("(?i)[a-c]");
    for b in 0u8..128 {
        let want = (b'a'..=b'c').contains(&b) || b.is_ascii_digit() || b == b'_';
        assert_eq!(re.is_match(&[b]).unwrap(), want, "byte {b}");
        let want_ci = (b'a'..=b'c').contains(&b.to_ascii_lowercase());
        assert_eq!(ci.is_match(&[b]).unwrap(), want_ci, "byte {b}");
    }
}

#[test]
fn required_literal_is_one_of_the_pattern_literals() {
    let re = onig("xyz\\d+");
    let l = re.required_literal().expect("a required literal");
    assert_eq!(l.bytes, b"xyz".to_vec());
    assert!(onig("foo|bar").required_literal().is_none());
    for p in ["a+bc", "(?=ab)a", "\\d+q", "k[a-z]*Zq"] {
        if let Some(l) = onig(p).required_literal() {
            assert!(!l.bytes.is_empty());
            assert!(p.as_bytes().windows(l.bytes.len()).any(|w| w == l.bytes.as_slice()), "{p}");
        }
    }
}

#[test]
fn empty_window_finds_nothing() {
    let re = onig("a+");
    let mut p = MatchParam::default();
    assert!(re.search_range_param(b"aaaa", 3, 1, &mut p).unwrap().is_none());
    assert_eq!(re.search_range_param(b"aaaa", 1, 3, &mut p).unwrap().unwrap().range(), 1..4);
    assert!(onig("aa").search_range_param(b"aaaa", 3, 1, &mut p).unwrap().is_none());
}

#[test]
fn interface_ids_name_encodings_and_syntaxes() {
    assert_eq!(enc_from_id(1), Some(Encoding::ASCII));
    assert_eq!(enc_from_id(2), Some(Encoding::UTF8));
    assert_eq!(enc_from_id(4), Some(Encoding::UTF16_LE));
    assert_eq!(enc_from_id(7), Some(Encoding::ISO_8859_1));
    assert_eq!(enc_from_id(9), None);
    assert_eq!(enc_from_id(0), Some(Encoding::UTF8));
    assert_eq!(enc_from_id(99), Some(Encoding::UTF8));
    assert_eq!(syntax_from_id(3), Syntax::perl());
    assert_eq!(syntax_from_id(10), Syntax::asis());
    assert_eq!(syntax_from_id(0), Syntax::oniguruma());
    assert_eq!(syntax_from_id(42), Syntax::oniguruma());
}

#[test]
fn alternation_takes_the_first_branch_that_matches() {
    let re = onig("ca|cat");
    assert_eq!(re.find_at(b"cat", 0).unwrap().unwrap().range(), 0..2);
    let re = onig("cat|ca");
    assert_eq!(re.find_at(b"cat", 0).unwrap().unwrap().range(), 0..3);
    assert!(re.find_at(b"cat", 1).unwrap().is_none());
    let re = onig("x|[a-c]y");
    assert_eq!(re.find_at(b"zby", 1).unwrap().unwrap().range(), 1..3);
    let re = onig("(a|ab)(c|bcd)");
    assert_eq!(re.find_at(b"abcd", 0).unwrap().unwrap().range(), 0..4);
    let re = onig("b|ab");
    assert_eq!(re.search(b"xab").unwrap().unwrap().range(), 1..3);
    let re = onig(".b");
    assert_eq!(re.find_at("\u{e9}b".as_bytes(), 0).unwrap().unwrap().range(), 0..3);
}

#[test]
fn anchors_decide_where_alternatives_may_match() {
    let re = onig("^b|b$");
    assert!(re.find_at(b"abc", 1).unwrap().is_none());
    assert_eq!(re.find_at(b"ab", 1).unwrap().unwrap().range(), 1..2);
    assert_eq!(re.find_at(b"a\nb", 2).unwrap().unwrap().range(), 2..3);
    let re = onig("\\bcat\\b|dog");
    assert!(re.find_at(b"xcat", 1).unwrap().is_none());
    assert_eq!(re.search(b"a cat").unwrap().unwrap().range(), 2..5);
    let re = onig("\\Ax|y\\z");
    assert_eq!(re.search(b"ayy").unwrap().unwrap().range(), 2..3);
}

#[test]
fn case_folded_class_member_is_found_by_search() {
    let kelvin = "\u{212A}".as_bytes();
    let re = onig("(?i)[k]");
    assert_eq!(re.find_at(kelvin, 0).unwrap().unwrap().range(), 0..3);
    assert_eq!(re.search(kelvin).unwrap().unwrap().range(), 0..3);
    assert_eq!(onig("(?i)k").search(kelvin).unwrap().unwrap().range(), 0..3);
}

#[test]
fn overlong_utf8_is_no_character() {
    let over = [0xE0u8, 0x81, 0x81];
    assert_eq!(Encoding::UTF8.mbc_to_code(&over).unwrap_err().kind, ErrorKind::InvalidEncoding);
    assert_eq!(Encoding::UTF8.mbc_to_code("\u{800}".as_bytes()).unwrap(), 0x800);
    assert!(onig("A").find_at(&over, 0).unwrap().is_none());
    assert!(onig(".").find_at(&over, 0).unwrap().is_none());
}

#[test]
fn search_finds_what_the_first_matching_start_gives() {
    let cases: [(&str, &str); 7] = [
        ("(?i)[k]", "xy\u{212A}k"),
        ("ab|cd", "xxcdab"),
        ("[0-9]x", "a1b2x"),
        ("\\bfoo", "afoo foo"),
        ("\u{e9}|e", "ab\u{e9}e"),
        ("(?i)Q", "aaq"),
        ("x$|y", "axyx"),
    ];
    for (p, h) in cases {
        let re = onig(p);
        let hay = h.as_bytes();
        let first = (0..=hay.len())
            .filter(|&i| h.is_char_boundary(i))
            .find_map(|i| re.find_at(hay, i).unwrap().map(|r| r.range()));
        assert_eq!(re.search(hay).unwrap().map(|r| r.range()), first, "{p}");
    }
}

#[test]
fn single_byte_search_reports_the_leftmost_match() {
    let cases: [(&[u8], &[u8]); 8] = [
        (b"^ab|x", b"zzx\nab"),
        (b"^foo", b"a foo\nfoo"),
        (b"a.cd", b"abcabxcdacd"),
        (b"[xy]z", b"aazyzxz"),
        (b"q\\d\\dr", b"q1rq12r"),
        (b"\\bbe", b"abe be"),
        (b"^b.c$", b"abc\nbxc\n"),
        (b"\xe9|z", b"ab\xe9z"),
    ];
    for (p, hay) in cases {
        let re = Regex::new(p, Options::none(), Encoding::ISO_8859_1, Syntax::oniguruma()).unwrap();
        let first = (0..=hay.len()).find_map(|i| re.find_at(hay, i).unwrap().map(|r| r.range()));
        assert_eq!(re.search(hay).unwrap().map(|r| r.range()), first, "{p:?}");
        assert_eq!(re.is_match(hay).unwrap(), first.is_some(), "{p:?}");
    }
    let re = Regex::new(b"^foo", Options::none(), Encoding::ASCII, Syntax::oniguruma()).unwrap();
    assert!(re.search(b"a foo\nfob").unwrap().is_none());
}

#[test]
fn empty_quoted_literal_matches_the_empty_string() {
    let re = Regex::new_str("\\Q\\E", Options::none(), Syntax::perl()).unwrap();
    assert_eq!(re.find_at(b"abc", 0).unwrap().unwrap().range(), 0..0);
    assert_eq!(re.search(b"abc").unwrap().unwrap().range(), 0..0);
    assert!(re.is_match(b"").unwrap());
}

#[test]
fn single_byte_scan_lists_successive_leftmost_matches() {
    let cases: [(&[u8], &[u8]); 4] = [(b"b|", b"abba"), (b"^a|c", b"ac\nab"), (b"x.z", b"xyzxxzq"), (b"\\b", b"a b")];
    for (p, hay) in cases {
        let re = Regex::new(p, Options::none(), Encoding::ISO_8859_1, Syntax::oniguruma()).unwrap();
        let mut want = Vec::new();
        let mut pos = 0;
        while pos <= hay.len() {
            let hit = (pos..=hay.len()).find_map(|i| re.find_at(hay, i).unwrap().map(|r| r.range()));
            match hit {
                Some(r) => {
                    pos = if r.end > r.start { r.end } else { r.start + 1 };
                    want.push(r);
                },
                None => break,
            }
        }
        let hits = thoth::expressions::scan(&re, hay, &mut MatchParam::default()).unwrap();
        let got: Vec<_> = hits.iter().map(|r| r.range()).collect();
        assert_eq!(got, want, "{p:?}");
    }
}

#[test]
fn compiled_code_matches_what_the_tree_means() {
    // A run of characters becomes one literal step; a group, a class and an
    // alternation keep their order of preference.
    let re = onig("(ab)c|ab[d-f]|a");
    assert_eq!(re.find_at(b"abcx", 0).unwrap().unwrap().range(), 0..3);
    assert_eq!(re.find_at(b"abex", 0).unwrap().unwrap().range(), 0..3);
    assert_eq!(re.find_at(b"abg", 0).unwrap().unwrap().range(), 0..1);
    assert!(re.find_at(b"xab", 0).unwrap().is_none());
    let re = onig("x(?:y|)z");
    assert_eq!(re.find_at(b"xz", 0).unwrap().unwrap().range(), 0..2);
    assert_eq!(re.find_at(b"xyz", 0).unwrap().unwrap().range(), 0..3);
}

#[test]
fn regset_refuses_find_longest() {
    let mut s = RegSet::new(vec![onig("a")]).unwrap();
    let longest = Regex::new_str("b", Options::find_longest(), Syntax::oniguruma()).unwrap();
    let e = s.add(longest).unwrap_err();
    assert_eq!(e.kind, ErrorKind::InvalidArgument);
    assert_eq!(s.len(), 1);
    let latin = Regex::new(b"c", Options::none(), Encoding::ISO_8859_1, Syntax::oniguruma()).unwrap();
    assert!(s.add(latin).is_err());
    assert_eq!(s.len(), 1);
}

#[test]
fn search_range_error_names_the_range() {
    let re = onig("a");
    let mut p = MatchParam::default();
    let e = re.search_range_param(b"ab", 3, 2, &mut p).unwrap_err();
    assert_eq!(e.kind, ErrorKind::InvalidArgument);
    assert_eq!(e.position, None);
    assert_eq!(e.message(), "search range");
}

#[test]
fn plain_search_without_limits_succeeds() {
    let re = onig("(a|b)(c|d)");
    let mut p = MatchParam::unlimited();
    assert_eq!(re.search_param(b"xxbd", &mut p).unwrap().unwrap().range(), 2..4);
}

#[test]
fn text_patterns_compile() {
    assert!(Regex::new_str("cat", Options::none(), Syntax::oniguruma()).is_ok());
    assert!(Regex::new_str("a", Options::ignorecase(), Syntax::perl()).is_ok());
    assert!(Regex::new(b"Abc123", Options::none(), Encoding::UTF8, Syntax::oniguruma()).is_ok());
    let re = Regex::new_str("a", Options::ignorecase(), Syntax::perl()).unwrap();
    assert_eq!(re.options().0, Options::ignorecase().0 | Syntax::perl().options.0);
}

#[test]
fn text_classes_and_option_groups_parse() {
    assert!(Regex::new_str("[abc]x", Options::none(), Syntax::oniguruma()).is_ok());
    assert!(Regex::new_str("(?i)abc", Options::none(), Syntax::oniguruma()).is_ok());
    let re = onig("[abc]+");
    assert_eq!(re.search(b"xxcab").unwrap().unwrap().range(), 2..5);
}

#[test]
fn text_pattern_helpers_find_every_occurrence() {
    let v = thoth::expressions::find_all_str("cat", "cat xcatcat").unwrap();
    assert_eq!(v, vec![0..3, 5..8, 8..11]);
    assert!(!thoth::expressions::is_match_str("cat", "xca").unwrap());
    assert!(thoth::expressions::is_match_str("ca", "xca").unwrap());
    let w = thoth::expressions::find_all(b"ab", b"abab", Encoding::UTF8, Syntax::oniguruma(), Options::none())
        .unwrap();
    assert_eq!(w, vec![0..2, 2..4]);
}

#[test]
fn stats_default_is_all_zero() {
    let s = thoth::expressions::count::Stats::default();
    assert_eq!(s.vm_steps, 0);
    assert_eq!(s.engine_new, 0);
}

#[test]
fn required_literal_window_counts_bytes() {
    // An optional two-byte character before the literal: the match starts
    // at the character, not at the literal.
    let re = onig("\u{e9}?x");
    assert_eq!(re.search("\u{e9}x".as_bytes()).unwrap().unwrap().range(), 0..3);
    assert_eq!(re.search(b"x").unwrap().unwrap().range(), 0..1);
    // A class member can be wider than one byte.
    let re = onig("[\u{e9}a]{2}x");
    assert_eq!(re.search("z\u{e9}\u{e9}x".as_bytes()).unwrap().unwrap().range(), 1..6);
    // A body that may match nothing leaves no distance at all.
    let re = onig("(?:b?){3}x");
    assert_eq!(re.search(b"x").unwrap().unwrap().range(), 0..1);
    // Case folding lets `k` stand for the three-byte KELVIN SIGN.
    let re = onig("(?i:k)(?-i:x)");
    assert_eq!(re.search("\u{212a}x".as_bytes()).unwrap().unwrap().range(), 0..4);
}

#[test]
fn repetition_rounds_follow_their_meaning() {
    // Greedy: the most rounds whose rest matches.
    assert_eq!(onig("a*ab").search(b"xaaab").unwrap().unwrap().range(), 1..5);
    // Lazy: the fewest rounds whose rest matches.
    assert_eq!(onig("a+?").search(b"aaa").unwrap().unwrap().range(), 0..1);
    assert_eq!(onig("a{2,}?b").search(b"aaab").unwrap().unwrap().range(), 0..4);
    // Possessive: all rounds, and no giving back.
    assert!(onig("a*+a").search(b"aaa").unwrap().is_none());
    assert_eq!(onig("a*+b").search(b"aab").unwrap().unwrap().range(), 0..3);
    // A sub-pattern body is run round by round.
    assert_eq!(onig("(?:ab)*c").search(b"ababc").unwrap().unwrap().range(), 0..5);
    assert_eq!(onig("(?:ab){2}").search(b"abab").unwrap().unwrap().range(), 0..4);
    assert!(onig("(?:ab){3}").search(b"abab").unwrap().is_none());
    // A class body, with a bound.
    assert_eq!(onig("[a-c]{2,3}").search(b"xabcd").unwrap().unwrap().range(), 1..4);
    assert_eq!(onig("[\u{e9}a]+").search("z\u{e9}a\u{e9}".as_bytes()).unwrap().unwrap().range(), 1..6);
    // A body that matches nothing stops the rounds once the minimum is met.
    assert_eq!(onig("(?:)*x").search(b"x").unwrap().unwrap().range(), 0..1);
}

#[test]
fn builtin_callouts_fail_skip_and_count() {
    assert_eq!(onig("a(*FAIL)|b").search(b"ab").unwrap().unwrap().range(), 1..2);
    assert_eq!(onig("a(*SKIP)b").search(b"ab").unwrap().unwrap().range(), 0..2);
    let re = onig("a(*COUNT)");
    let mut p = MatchParam::default();
    assert_eq!(re.search_param(b"xa", &mut p).unwrap().unwrap().range(), 1..2);
}

#[test]
fn new_str_is_new_on_utf8_bytes() {
    for p in ["(a)b|c", "\u{e9}+x", "[a-c]{2}", "(?<n>x)\\k<n>"] {
        let a = Regex::new_str(p, Options::none(), Syntax::oniguruma()).unwrap();
        let b = Regex::new(p.as_bytes(), Options::none(), Encoding::UTF8, Syntax::oniguruma())
            .unwrap();
        assert_eq!(a.capture_count(), b.capture_count());
        assert_eq!(a.options(), b.options());
        assert_eq!(a.encoding(), b.encoding());
        for hay in ["abc", "\u{e9}\u{e9}x", "xxabc", "xx"] {
            let ra = a.search(hay.as_bytes()).unwrap().map(|m| m.range());
            let rb = b.search(hay.as_bytes()).unwrap().map(|m| m.range());
            assert_eq!(ra, rb);
        }
    }
    let ea = Regex::new_str("(a", Options::none(), Syntax::oniguruma()).unwrap_err();
    let eb = Regex::new(b"(a", Options::none(), Encoding::UTF8, Syntax::oniguruma()).unwrap_err();
    assert_eq!(ea.kind, eb.kind);
}
