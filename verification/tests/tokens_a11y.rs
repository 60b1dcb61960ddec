//! ARIA helper tests.

use thoth::a11y::{label, live, status};
use thoth::symbols::status as glyph;

#[test]
fn label_img_sets_role_and_aria() {
    let s = label::img(glyph::OK, "verified");
    assert!(s.contains("role=\"img\""));
    assert!(s.contains("aria-label=\"verified\""));
    assert!(s.contains(glyph::OK));
}

#[test]
fn label_escapes_quotes() {
    let s = label::img(glyph::OK, "say \"hi\"");
    assert!(s.contains("aria-label=\"say &quot;hi&quot;\""));
}

#[test]
fn live_polite_and_assertive() {
    let p = live::polite("Syncing");
    assert!(p.contains("aria-live=\"polite\""));
    assert!(p.contains("Syncing"));
    let a = live::assertive("Error");
    assert!(a.contains("aria-live=\"assertive\""));
}

#[test]
fn status_announce() {
    let s = status::announce(status::Kind::Saved);
    assert!(s.contains("Saved"));
    assert!(s.contains("aria-live=\"polite\""));
    assert_eq!(status::Kind::Offline.as_str(), "Offline");
}

#[test]
fn html_labelled_reexports_img() {
    let a = label::img(glyph::OK, "verified");
    let b = thoth::symbols::html::labelled(glyph::OK, "verified");
    assert_eq!(a, b);
}
