//! Callouts: user hooks consulted while a match runs.

use vstd::prelude::*;
use crate::text::push_decimal;

verus! {

/// Result of a callout.
#[derive(Clone, Copy, Debug, PartialEq, Eq, Structural)]
pub enum CalloutResult {
    /// Continue matching (Oniguruma `ONIG_CALLOUT_SUCCESS` / 0).
    Success,
    /// Fail this alternative.
    Fail,
    /// `(*SKIP)`: continue matching, but if this whole attempt fails, resume
    /// the search at this position rather than at the next one.
    Skip,
}

/// Direction a contents-callout fires.
#[derive(Clone, Copy, Debug, PartialEq, Eq, Structural)]
pub enum CalloutDir {
    Progress,
    Retraction,
    Both,
}

/// Context passed to a callout.
#[derive(Clone, Debug)]
pub struct CalloutCtx<'a> {
    pub name: &'a str,
    pub args: &'a str,
    pub tag: Option<&'a str>,
    pub body: &'a str,
    pub haystack: &'a [u8],
    pub current: usize,
    pub dir: CalloutDir,
}

/// The hooks a match consults: progress and retraction contents-callouts
/// (`(?{...})`) and named callouts (`(*name)`). A hook left at its default
/// answers `Success`, as an absent hook does.
pub trait Callouts {
    fn progress(&self, ctx: &CalloutCtx) -> (r: CalloutResult)
        default_ensures
            r == CalloutResult::Success,
    {
        CalloutResult::Success
    }

    fn retraction(&self, ctx: &CalloutCtx) -> (r: CalloutResult)
        default_ensures
            r == CalloutResult::Success,
    {
        CalloutResult::Success
    }

    fn named(&self, ctx: &CalloutCtx) -> (r: CalloutResult)
        default_ensures
            r == CalloutResult::Success,
    {
        CalloutResult::Success
    }
}

/// No hooks installed.
#[derive(Clone, Copy, Debug)]
pub struct NoCallouts;

impl Callouts for NoCallouts {
}

/// Built-in `(*SKIP)` hook.
pub fn builtin_skip(_ctx: &CalloutCtx) -> (r: CalloutResult)
    ensures
        r == CalloutResult::Skip,
{
    CalloutResult::Skip
}

/// Format a callout for debugging: `callout name=<name> args=<args> pos=<n>`.
pub fn describe(ctx: &CalloutCtx) -> (r: String)
    ensures
        r@ == "callout name="@ + ctx.name@ + " args="@ + ctx.args@ + " pos="@
            + crate::text::decimal(ctx.current as nat),
{
    let mut s = String::from_str("callout name=");
    s.append(ctx.name);
    s.append(" args=");
    s.append(ctx.args);
    s.append(" pos=");
    push_decimal(&mut s, ctx.current);
    s
}

} // verus!
