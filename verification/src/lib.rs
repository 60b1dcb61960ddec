//! Unicode glyph constants, accessible HTML snippets and an Oniguruma-style
//! regular-expression engine, with their behaviour stated as Verus contracts.

pub mod a11y;
pub mod expressions;
pub mod symbols;
pub mod text;

pub use symbols::{nav, status};
