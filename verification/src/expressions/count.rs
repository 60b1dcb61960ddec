//! Deterministic work counters for the expressions VM.
//!
//! Counting is an opt-in diagnostic of the engine; this build compiles it out.
//! Every tick is then a no-op and a snapshot reports zero for every counter,
//! exactly as the engine behaves with counting disabled. Weights are fixed so
//! that a drop in `work` is a drop in modeled instructions, not wall time.

use vstd::prelude::*;

verus! {

/// One reading of every counter.
#[derive(Clone, Copy, Debug, PartialEq, Eq, Structural)]
pub struct Stats {
    pub engine_new: u64,
    pub vm_steps: u64,
    pub consume_char: u64,
    pub mbc_len: u64,
    pub mbc_to_code: u64,
    pub bump_retry: u64,
    pub next_pos: u64,
    pub cap_clone: u64,
    pub search_pos: u64,
    pub lit_clone: u64,
    pub utf8_str: u64,
    pub byte_scan: u64,
    pub class_test: u64,
    pub split_step: u64,
    pub scratch_alloc: u64,
    pub plan_hit: u64,
    pub req_scan: u64,
    pub req_skip: u64,
    pub only_max: u64,
}

impl Default for Stats {
    /// Every counter at zero.
    fn default() -> (r: Stats)
        ensures
            r == (Stats {
                engine_new: 0,
                vm_steps: 0,
                consume_char: 0,
                mbc_len: 0,
                mbc_to_code: 0,
                bump_retry: 0,
                next_pos: 0,
                cap_clone: 0,
                search_pos: 0,
                lit_clone: 0,
                utf8_str: 0,
                byte_scan: 0,
                class_test: 0,
                split_step: 0,
                scratch_alloc: 0,
                plan_hit: 0,
                req_scan: 0,
                req_skip: 0,
                only_max: 0,
            }),
    {
        Stats {
            engine_new: 0,
            vm_steps: 0,
            consume_char: 0,
            mbc_len: 0,
            mbc_to_code: 0,
            bump_retry: 0,
            next_pos: 0,
            cap_clone: 0,
            search_pos: 0,
            lit_clone: 0,
            utf8_str: 0,
            byte_scan: 0,
            class_test: 0,
            split_step: 0,
            scratch_alloc: 0,
            plan_hit: 0,
            req_scan: 0,
            req_skip: 0,
            only_max: 0,
        }
    }
}

/// `a * w`, clamped at `u64::MAX`.
pub open spec fn sat_mul(a: u64, w: u64) -> int {
    if a * w > u64::MAX { u64::MAX as int } else { a * w }
}

/// The modeled instruction count of a reading.
pub open spec fn work_spec(s: Stats) -> int {
    sat_mul(s.engine_new, 250)
        + sat_mul(s.vm_steps, 18)
        + sat_mul(s.consume_char, 12)
        + sat_mul(s.mbc_len, 20)
        + sat_mul(s.mbc_to_code, 55)
        + sat_mul(s.bump_retry, 14)
        + sat_mul(s.next_pos, 10)
        + sat_mul(s.cap_clone, 45)
        + sat_mul(s.search_pos, 15)
        + sat_mul(s.lit_clone, 35)
        + sat_mul(s.utf8_str, 40)
        + sat_mul(s.byte_scan, 1)
}

/// A reading with every counter at zero.
pub open spec fn zero_stats() -> Stats {
    Stats {
        engine_new: 0,
        vm_steps: 0,
        consume_char: 0,
        mbc_len: 0,
        mbc_to_code: 0,
        bump_retry: 0,
        next_pos: 0,
        cap_clone: 0,
        search_pos: 0,
        lit_clone: 0,
        utf8_str: 0,
        byte_scan: 0,
        class_test: 0,
        split_step: 0,
        scratch_alloc: 0,
        plan_hit: 0,
        req_scan: 0,
        req_skip: 0,
        only_max: 0,
    }
}

/// `a * w` clamped at `u64::MAX`.
fn saturating_times(a: u64, w: u64) -> (r: u64)
    requires
        w > 0,
    ensures
        r == sat_mul(a, w),
{
    if a > u64::MAX / w {
        proof {
            assert(a * w > u64::MAX) by (nonlinear_arith)
                requires
                    w > 0,
                    a > u64::MAX / w,
            ;
        }
        u64::MAX
    } else {
        proof {
            assert(a * w <= u64::MAX) by (nonlinear_arith)
                requires
                    w > 0,
                    a <= u64::MAX / w,
            ;
        }
        a * w
    }
}

impl Stats {
    /// Fixed instruction model: each weighted counter is a saturating product,
    /// and the diagnostic counters weigh nothing.
    pub fn work(&self) -> (r: u64)
        requires
            work_spec(*self) <= u64::MAX,
        ensures
            r == work_spec(*self),
    {
        let engine_new = saturating_times(self.engine_new, 250);
        let vm_steps = saturating_times(self.vm_steps, 18);
        let consume_char = saturating_times(self.consume_char, 12);
        let mbc_len = saturating_times(self.mbc_len, 20);
        let mbc_to_code = saturating_times(self.mbc_to_code, 55);
        let bump_retry = saturating_times(self.bump_retry, 14);
        let next_pos = saturating_times(self.next_pos, 10);
        let cap_clone = saturating_times(self.cap_clone, 45);
        let search_pos = saturating_times(self.search_pos, 15);
        let lit_clone = saturating_times(self.lit_clone, 35);
        let utf8_str = saturating_times(self.utf8_str, 40);
        let byte_scan = saturating_times(self.byte_scan, 1);
        engine_new + vm_steps + consume_char + mbc_len + mbc_to_code + bump_retry + next_pos + cap_clone + search_pos + lit_clone + utf8_str + byte_scan
    }
}

/// Count one event (compiled out: no effect).
#[inline(always)]
pub fn tick_engine_new() {
}

/// Count one event (compiled out: no effect).
#[inline(always)]
pub fn tick_vm() {
}

/// Count one event (compiled out: no effect).
#[inline(always)]
pub fn tick_consume() {
}

/// Count one event (compiled out: no effect).
#[inline(always)]
pub fn tick_mbc_len() {
}

/// Count one event (compiled out: no effect).
#[inline(always)]
pub fn tick_mbc_to_code() {
}

/// Count one event (compiled out: no effect).
#[inline(always)]
pub fn tick_bump() {
}

/// Count one event (compiled out: no effect).
#[inline(always)]
pub fn tick_next_pos() {
}

/// Count one event (compiled out: no effect).
#[inline(always)]
pub fn tick_cap_clone() {
}

/// Count one event (compiled out: no effect).
#[inline(always)]
pub fn tick_search_pos() {
}

/// Count one event (compiled out: no effect).
#[inline(always)]
pub fn tick_lit_clone() {
}

/// Count one event (compiled out: no effect).
#[inline(always)]
pub fn tick_utf8_str() {
}

/// Count one event (compiled out: no effect).
#[inline(always)]
pub fn tick_class_test() {
}

/// Count one event (compiled out: no effect).
#[inline(always)]
pub fn tick_only_max() {
}

/// Count one event (compiled out: no effect).
#[inline(always)]
pub fn tick_req_scan() {
}

/// Count one event (compiled out: no effect).
#[inline(always)]
pub fn tick_plan_hit() {
}

/// Count one event (compiled out: no effect).
#[inline(always)]
pub fn tick_scratch_alloc() {
}

/// Count one event (compiled out: no effect).
#[inline(always)]
pub fn tick_split_step() {
}

/// Count `n` events (compiled out: no effect).
#[inline(always)]
pub fn tick_req_skip(n: u64) {
    let _ = n;
}

/// Count `n` events (compiled out: no effect).
#[inline(always)]
pub fn tick_byte_scan(n: u64) {
    let _ = n;
}

/// Zero every counter (they are already zero with counting compiled out).
pub fn reset() {
}

/// Read every counter.
pub fn snapshot() -> (r: Stats)
    ensures
        r == zero_stats(),
{
    Stats {
        engine_new: 0,
        vm_steps: 0,
        consume_char: 0,
        mbc_len: 0,
        mbc_to_code: 0,
        bump_retry: 0,
        next_pos: 0,
        cap_clone: 0,
        search_pos: 0,
        lit_clone: 0,
        utf8_str: 0,
        byte_scan: 0,
        class_test: 0,
        split_step: 0,
        scratch_alloc: 0,
        plan_hit: 0,
        req_scan: 0,
        req_skip: 0,
        only_max: 0,
    }
}

} // verus!
