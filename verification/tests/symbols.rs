//! Glyph scalar values and the labelled-glyph helper.

use thoth::symbols::{html, nav, status, VS15};

#[test]
fn status_scalars() {
    assert_eq!(status::OK, "\u{2713}\u{FE0E}");
    assert_eq!(status::PASS, "\u{2705}");
    assert_eq!(status::FAIL, "\u{2717}");
    assert_eq!(status::REJECT, "\u{274C}");
    assert_eq!(status::CROSS, "\u{2715}");
    assert_eq!(status::WARN, "\u{26A0}\u{FE0E}");
    assert_eq!(status::TIMER, "\u{23F1}\u{FE0E}");
    assert_eq!(status::PENDING, status::TIMER);
    assert_eq!(status::ALARM, "\u{23F0}\u{FE0E}");
    assert_eq!(status::HOURGLASS, "\u{23F3}\u{FE0E}");
    assert_eq!(status::LIVE, "\u{25CF}");
    assert_eq!(status::STOP, "\u{25A0}");
    assert_eq!(status::PLAY, "\u{25B6}\u{FE0E}");
    assert_eq!(VS15, "\u{FE0E}");
}

#[test]
fn nav_scalars() {
    assert_eq!(nav::RIGHT, "\u{2192}");
    assert_eq!(nav::LEFT, "\u{2190}");
    assert_eq!(nav::BIDI, "\u{2194}");
    assert_eq!(nav::DOUBLE_RIGHT, "\u{21D2}");
    assert_eq!(nav::LONG_RIGHT, "\u{27F6}");
    assert_eq!(nav::NE, "\u{2197}");
    assert_eq!(nav::HOOK_RIGHT, "\u{21AA}");
    assert_eq!(nav::HOOK_LEFT, "\u{21A9}");
    assert_eq!(nav::BRANCH, "\u{21B3}");
    assert_eq!(nav::CURVE_UP, "\u{2934}");
    assert_eq!(nav::RELOAD, "\u{21BB}");
    assert_eq!(nav::COLLAPSE, "\u{25B2}\u{FE0E}");
}

#[test]
fn html_labelled() {
    let s = html::labelled(status::OK, "verified");
    assert_eq!(
        s,
        format!(r#"<span role="img" aria-label="verified">{}</span>"#, status::OK)
    );
    let escaped = html::labelled(status::FAIL, r#"say "no""#);
    assert!(escaped.contains(r#"aria-label="say &quot;no&quot;""#));
}
