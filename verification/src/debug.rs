//! Debug switches of extraction.

use vstd::prelude::*;

use crate::env::{Environment, FlagCache};
use crate::options::env_flag;

verus! {

/// Prints timing and concurrency of the down-meta stage where it is set.
pub const ENV_EXTRACT_DOWN_META_TIMING: &'static str = "LARQL_EXTRACT_DOWN_META_TIMING";

/// Whether timing of the down-meta stage is asked for, by any value; the variable is read once.
pub fn extract_down_meta_timing(cache: &mut FlagCache, env: &Environment) -> (on: bool)
    ensures
        on == crate::env::cached(old(cache)@, env@.contains_key(ENV_EXTRACT_DOWN_META_TIMING@)),
        on == crate::env::cached(
            old(cache)@,
            env@.contains_key("LARQL_EXTRACT_DOWN_META_TIMING"@),
        ),
        final(cache)@ == Some(on),
{
    let fresh: bool = env_flag(env, ENV_EXTRACT_DOWN_META_TIMING);
    cache.get_or_init(fresh)
}

} // verus!
