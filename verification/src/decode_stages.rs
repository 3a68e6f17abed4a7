//! Opt-in timers that split remote decode time in the local dense FFN and the remote experts.

use vstd::prelude::*;

use crate::env::{Environment, FlagCache};
use crate::text::same_text;

verus! {

/// Switches the timers on where it is `1`.
pub const ENV_DECODE_STAGES: &'static str = "LARQL_DECODE_STAGES";

/// Nanoseconds spent so far on a thread.
pub struct StageTimers {
    /// In the dense FFN.
    pub dense_ns: u128,
    /// In the experts, server and wire.
    pub expert_ns: u128,
}

impl StageTimers {
    /// Timers at zero.
    pub fn new() -> (timers: Self)
        ensures
            timers.dense_ns == 0,
            timers.expert_ns == 0,
    {
        StageTimers { dense_ns: 0, expert_ns: 0 }
    }
}

/// The variable asks for the timers.
pub open spec fn stages_asked(vars: crate::env::Vars) -> bool {
    crate::env::var_text(vars, ENV_DECODE_STAGES@) == Some("1"@)
}

/// Whether the timers run; the variable is read once.
pub fn is_enabled(cache: &mut FlagCache, env: &Environment) -> (on: bool)
    ensures
        on == crate::env::cached(old(cache)@, stages_asked(env@)),
        final(cache)@ == Some(on),
{
    let fresh: bool = match env.var_str(ENV_DECODE_STAGES) {
        Some(value) => same_text(value, "1"),
        None => false,
    };
    cache.get_or_init(fresh)
}

/// Adds to the time of the dense FFN, where the timers run.
pub fn record_dense(cache: &mut FlagCache, env: &Environment, timers: &mut StageTimers, ns: u128)
    requires
        crate::env::cached(old(cache)@, stages_asked(env@)) ==> old(timers).dense_ns + ns
            <= u128::MAX,
    ensures
        final(cache)@ == Some(crate::env::cached(old(cache)@, stages_asked(env@))),
        final(timers).expert_ns == old(timers).expert_ns,
        final(timers).dense_ns == if crate::env::cached(old(cache)@, stages_asked(env@)) {
            old(timers).dense_ns + ns
        } else {
            old(timers).dense_ns as int
        },
{
    if is_enabled(cache, env) {
        timers.dense_ns = timers.dense_ns + ns;
    }
}

/// Adds to the time of the experts, where the timers run.
pub fn record_expert(cache: &mut FlagCache, env: &Environment, timers: &mut StageTimers, ns: u128)
    requires
        crate::env::cached(old(cache)@, stages_asked(env@)) ==> old(timers).expert_ns + ns
            <= u128::MAX,
    ensures
        final(cache)@ == Some(crate::env::cached(old(cache)@, stages_asked(env@))),
        final(timers).dense_ns == old(timers).dense_ns,
        final(timers).expert_ns == if crate::env::cached(old(cache)@, stages_asked(env@)) {
            old(timers).expert_ns + ns
        } else {
            old(timers).expert_ns as int
        },
{
    if is_enabled(cache, env) {
        timers.expert_ns = timers.expert_ns + ns;
    }
}

/// The timers run where their variable is set to exactly `1`, at the time it is first read.
pub proof fn law_timers_are_asked_for_by_one(vars: crate::env::Vars)
    ensures
        stages_asked(vars) <==> vars.contains_key("LARQL_DECODE_STAGES"@)
            && vars["LARQL_DECODE_STAGES"@] == crate::env::EnvTextView::Text("1"@),
{
}

} // verus!
