//! Accessibility helpers for UI chrome: small HTML snippets carrying `role`
//! and `aria-*` attributes only -- no DOM crate, no JS.

pub mod label;
pub mod live;
pub mod status;
