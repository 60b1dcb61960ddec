//! Match-time limits (Oniguruma MatchParam).

use vstd::prelude::*;

verus! {

/// Oniguruma default: 10_000_000 retries in match. 0 = unlimited.
pub const DEFAULT_RETRY_LIMIT_IN_MATCH: u64 = 10_000_000;

/// Finite search-retry default (Oniguruma ships 0/unlimited).
pub const DEFAULT_RETRY_LIMIT_IN_SEARCH: u64 = 10_000_000;

/// Finite match-stack default (Oniguruma ships 0/unlimited).
pub const DEFAULT_MATCH_STACK_LIMIT: u32 = 10_000_000;

/// Oniguruma default subexp-call cap in search.
pub const DEFAULT_SUBEXP_CALL_LIMIT: u32 = 10_000;

/// Limits applied during match/search. 0 on a limit means unlimited.
#[derive(Clone, Debug)]
pub struct MatchParam {
    /// Maximum backtrack-stack depth. 0 = unlimited.
    pub stack_limit: u32,
    /// Retry count inside one match attempt. 0 = unlimited.
    pub retry_limit_in_match: u64,
    /// Retry count across a search (all start positions). 0 = unlimited.
    pub retry_limit_in_search: u64,
    /// Maximum `\g` subexp-calls during search. 0 = unlimited.
    pub subexp_call_limit: u32,
    /// Persistent `(*COUNT)` slot: every `(*COUNT)` / `(*TOTAL_COUNT)` passed
    /// adds one, across searches that share this value.
    pub count: u32,
}

impl MatchParam {
    /// The default limits.
    pub fn new() -> (r: MatchParam)
        ensures
            r.stack_limit == DEFAULT_MATCH_STACK_LIMIT,
            r.retry_limit_in_match == DEFAULT_RETRY_LIMIT_IN_MATCH,
            r.retry_limit_in_search == DEFAULT_RETRY_LIMIT_IN_SEARCH,
            r.subexp_call_limit == DEFAULT_SUBEXP_CALL_LIMIT,
            r.count == 0,
    {
        MatchParam {
            stack_limit: DEFAULT_MATCH_STACK_LIMIT,
            retry_limit_in_match: DEFAULT_RETRY_LIMIT_IN_MATCH,
            retry_limit_in_search: DEFAULT_RETRY_LIMIT_IN_SEARCH,
            subexp_call_limit: DEFAULT_SUBEXP_CALL_LIMIT,
            count: 0,
        }
    }

    /// Unlimited stack and retries (Oniguruma's 0-means-unlimited profile).
    pub fn unlimited() -> (r: MatchParam)
        ensures
            r.stack_limit == 0,
            r.retry_limit_in_match == 0,
            r.retry_limit_in_search == 0,
            r.subexp_call_limit == 0,
            r.count == 0,
    {
        MatchParam {
            stack_limit: 0,
            retry_limit_in_match: 0,
            retry_limit_in_search: 0,
            subexp_call_limit: 0,
            count: 0,
        }
    }
}

impl Default for MatchParam {
    fn default() -> (r: MatchParam)
        ensures
            r.stack_limit == DEFAULT_MATCH_STACK_LIMIT,
            r.retry_limit_in_match == DEFAULT_RETRY_LIMIT_IN_MATCH,
            r.retry_limit_in_search == DEFAULT_RETRY_LIMIT_IN_SEARCH,
            r.subexp_call_limit == DEFAULT_SUBEXP_CALL_LIMIT,
            r.count == 0,
    {
        MatchParam::new()
    }
}

} // verus!
