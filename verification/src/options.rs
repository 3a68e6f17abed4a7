//! Runtime options, read from environment variables.
//!
//! Variables fall in three groups. The stages of the decode fast path are on unless they are
//! switched off. Diagnostics and dumps are off unless their variable is set, to whatever value.
//! The remaining switches choose between kernels for comparison.
//!
//! The readers differ in their default and in what they take for a yes:
//!
//! | Reader                         | Unset    | True where the variable is            |
//! |--------------------------------|----------|---------------------------------------|
//! | [`env_flag`]                   | false    | set, to any value and even to nothing |
//! | [`env_opt_in`]                 | false    | `1`, `true`, `on` or `yes`            |
//! | [`env_opt_out`]                | false    | `0`, `false`, `off` or `no`           |
//! | not [`env_opt_out`]            | true     | unset, or none of the above           |
//! | [`env_not_zero_or_default`]    | a choice | set to anything but `0`               |
//!
//! A variable that is set to nothing is neither an opt-in nor an opt-out. Reading one variable
//! with two readers of different defaults gives two answers.

use vstd::prelude::*;

use crate::env::{EnvText, Environment, FlagCache};
use crate::text::{parse_usize, same_text};

verus! {

/// Enable timing around the full CPU MoE forward pass.
pub const ENV_MOE_FWD_TIMING: &'static str = "LARQL_MOE_FWD_TIMING";

/// Enable timing around one CPU MoE expert.
pub const ENV_MOE_EXPERT_TIMING: &'static str = "LARQL_MOE_EXPERT_TIMING";

/// Enable timing inside the direct Q4_K expert kernel.
pub const ENV_KERNEL_TIMING: &'static str = "LARQL_KERNEL_TIMING";

/// Disable the direct Q4_K/Q8_K CPU MoE path.
pub const ENV_DISABLE_Q4K_DIRECT: &'static str = "LARQL_DISABLE_Q4K_DIRECT";

/// Opt in to the older scalar Q4_K direct path in `run_single_expert_into`.
pub const ENV_Q4K_DIRECT: &'static str = "LARQL_Q4K_DIRECT";

/// Max entries in the dequantised MoE expert cache.
pub const ENV_MOE_CACHE_ENTRIES: &'static str = "LARQL_MOE_CACHE_ENTRIES";

/// MoE bypass toggle (diagnostic).
pub const ENV_SKIP_MOE: &'static str = "LARQL_SKIP_MOE";

/// MoE route/debug output toggle.
pub const ENV_MOE_DEBUG: &'static str = "LARQL_MOE_DEBUG";

/// Enable Metal MoE dispatch timing.
pub const ENV_METAL_MOE_TIMING: &'static str = "LARQL_MOE_TIMING";

/// Select the 8-simdgroup Q4_K matvec kernel; set to a false value to opt out.
pub const ENV_Q4K_MATVEC_8SG: &'static str = "LARQL_Q4K_MATVEC_8SG";

/// Opt in to the 8-simdgroup Q6_K matvec kernel.
pub const ENV_Q6K_8SG: &'static str = "LARQL_Q6K_8SG";

/// Opt in to fused attention.
pub const ENV_FUSED_ATTN: &'static str = "LARQL_FUSED_ATTN";

/// Disable fused QK-norm + RoPE when set to a false value.
pub const ENV_FUSED_QK_NORM_ROPE: &'static str = "LARQL_FUSED_QK_NORM_ROPE";

/// Disable fused KV append + attend when set to a false value.
pub const ENV_FUSED_KV_APPEND_ATTEND: &'static str = "LARQL_FUSED_KV_APPEND_ATTEND";

/// Disable fused post-attention norm when set to a false value.
pub const ENV_FUSED_POST_ATTN_NORM: &'static str = "LARQL_FUSED_POST_ATTN_NORM";

/// Disable fused post-FFN norm when set to a false value.
pub const ENV_FUSED_POST_FFN_NORM: &'static str = "LARQL_FUSED_POST_FFN_NORM";

/// Opt in to fusing the residual add behind the FFN with the next layer's input norm.
pub const ENV_FUSED_PRELAYER_NORM: &'static str = "LARQL_FUSED_PRELAYER_NORM";

/// Opt in to the cooperative gate+up kernel variant.
pub const ENV_GATE_UP_COOP: &'static str = "LARQL_GATE_UP_COOP";

/// Opt back in to the shader that rolls the norm into the QKV projection.
pub const ENV_QKV_FUSED: &'static str = "LARQL_QKV_FUSED";

/// Select the 8-simdgroup gate+up kernel; set to a false value to opt out.
pub const ENV_GATE_UP_8SG: &'static str = "LARQL_GATE_UP_8SG";

/// Opt in to half-precision accumulation for the legacy gate+up kernel.
pub const ENV_F16_ACC: &'static str = "LARQL_F16_ACC";

/// Opt in to experimental fused Q6_K down routing.
pub const ENV_FUSED_Q6K_DOWN: &'static str = "LARQL_FUSED_Q6K_DOWN";

/// Fused Q4_K down routing toggle. Existing decode code only treats `0` as off.
pub const ENV_FUSED_DOWN: &'static str = "LARQL_FUSED_DOWN";

/// Print the Q4_K quant-matvec dispatch route.
pub const ENV_DBG_QM: &'static str = "LARQL_DBG_QM";

/// One-line summary for the first few Metal decode calls.
pub const ENV_DECODE_DEBUG: &'static str = "DECODE_DEBUG";

/// Dump per-layer residuals to a binary file.
pub const ENV_DUMP_RESIDUALS: &'static str = "LARQL_DUMP_RESIDUALS";

/// Stop Metal decode at this layer and dump intermediate buffers.
pub const ENV_DECODE_DIAG_LAYER: &'static str = "LARQL_DECODE_DIAG_LAYER";

/// Dump Gemma-4-MoE layer-0 intermediates.
pub const ENV_DUMP_L0: &'static str = "LARQL_DUMP_L0";

/// Force per-layer NaN diagnostics in Metal decode.
pub const ENV_DEBUG_NAN_LAYERS: &'static str = "LARQL_DEBUG_NAN_LAYERS";

/// Dump Metal decode layer outputs.
pub const ENV_DECODE_DUMP_LAYERS: &'static str = "LARQL_DECODE_DUMP_LAYERS";

/// Dump Metal full-pipeline layer outputs.
pub const ENV_METAL_DUMP_LAYERS: &'static str = "LARQL_METAL_DUMP_LAYERS";

/// Layer index for stage-level dump helpers.
pub const ENV_STAGE_DUMP_LAYER: &'static str = "LARQL_STAGE_DUMP_LAYER";

/// Print GPU-side command-buffer timing.
pub const ENV_GPU_TIMING: &'static str = "LARQL_GPU_TIMING";

/// Request paired commit/wait decode stage profiling.
pub const ENV_PROFILE_SPLIT: &'static str = "LARQL_PROFILE_SPLIT";

/// Debug-only outer norm bypass in Metal MoE combine.
pub const ENV_SKIP_OUTER_NORM: &'static str = "SKIP_OUTER_NORM";

/// Attention projections straight from the Q4_K weights of the index.
pub const ENV_Q4K_DIRECT_ATTN: &'static str = "LARQL_Q4K_DIRECT_ATTN";

/// Int8 (Q8_K) activation route for the Q4_K-direct attention projections.
pub const ENV_Q4K_ATTN_INT8: &'static str = "LARQL_Q4K_ATTN_INT8";

/// Vocabulary projection straight from the Q4_K view of the head, where there is one.
pub const ENV_Q4K_LM_HEAD: &'static str = "LARQL_Q4K_LM_HEAD";

/// Dense FFN straight from Q4_K weights on the decode path.
pub const ENV_Q4K_DIRECT_FFN: &'static str = "LARQL_Q4K_DIRECT_FFN";

/// Hand-written aarch64 kernels, bit-exact with the intrinsic ones.
pub const ENV_Q4K_ASM: &'static str = "LARQL_Q4K_ASM";

/// Spin-barrier thread pool for the decode hot path (vs rayon's sleeping pool).
pub const ENV_SPIN_POOL: &'static str = "LARQL_SPIN_POOL";

// ── What the values mean ────────────────────────────────────────────────────

/// A value that switches an experiment on.
pub open spec fn is_yes(value: Seq<char>) -> bool {
    value == "1"@ || value == "true"@ || value == "on"@ || value == "yes"@
}

/// A value that switches a default off.
pub open spec fn is_no(value: Seq<char>) -> bool {
    value == "0"@ || value == "false"@ || value == "off"@ || value == "no"@
}

/// The variable is set to a yes.
pub open spec fn opted_in(vars: crate::env::Vars, name: Seq<char>) -> bool {
    crate::env::var_text(vars, name) matches Some(value) && is_yes(value)
}

/// The variable is set to a no.
pub open spec fn opted_out(vars: crate::env::Vars, name: Seq<char>) -> bool {
    crate::env::var_text(vars, name) matches Some(value) && is_no(value)
}

/// The variable is set to anything but `0`; where it is unset, `default`.
pub open spec fn not_zero_or(vars: crate::env::Vars, name: Seq<char>, default: bool) -> bool {
    if vars.contains_key(name) {
        crate::env::var_text(vars, name) != Some("0"@)
    } else {
        default
    }
}

// ── Readers ─────────────────────────────────────────────────────────────────

/// Whether a variable is set.
pub fn env_flag(env: &Environment, name: &str) -> (set: bool)
    ensures
        set == env@.contains_key(name@),
{
    env.var(name).is_some()
}

/// Whether any of the variables is set.
pub fn env_flag_any(env: &Environment, names: &[&str]) -> (set: bool)
    ensures
        set == exists|i: int| 0 <= i < names@.len() && env@.contains_key(#[trigger] names@[i]@),
{
    let mut at: usize = 0;
    while at < names.len()
        invariant
            at <= names@.len(),
            forall|i: int| 0 <= i < at ==> !env@.contains_key(#[trigger] names@[i]@),
        decreases names@.len() - at,
    {
        if env_flag(env, names[at]) {
            assert(env@.contains_key(names@[at as int]@));
            return true;
        }
        at = at + 1;
    }
    false
}

/// A variable's value as a number; none where it is unset or not one.
pub fn env_usize(env: &Environment, name: &str) -> (number: Option<usize>)
    ensures
        number == match crate::env::var_text(env@, name@) {
            Some(value) => crate::text::parsed_usize(value),
            None => None,
        },
{
    match env.var_str(name) {
        Some(value) => parse_usize(value),
        None => None,
    }
}

/// A variable's text; none where it is unset or not Unicode.
pub fn env_value(env: &Environment, name: &str) -> (value: Option<String>)
    ensures
        match value {
            Some(text) => crate::env::var_text(env@, name@) == Some(text@),
            None => crate::env::var_text(env@, name@) is None,
        },
{
    match env.var_str(name) {
        Some(text) => Some(text.to_owned()),
        None => None,
    }
}

/// A variable's text, unless it is empty.
pub fn env_nonempty_value(env: &Environment, name: &str) -> (value: Option<String>)
    ensures
        match value {
            Some(text) => crate::env::var_text(env@, name@) == Some(text@) && text@.len() > 0,
            None => crate::env::var_text(env@, name@) matches Some(text) ==> text.len() == 0,
        },
{
    match env_value(env, name) {
        Some(text) => if text.as_str().is_empty() {
            None
        } else {
            Some(text)
        },
        None => None,
    }
}

/// Whether a variable is set to a yes.
pub fn env_opt_in(env: &Environment, name: &str) -> (yes: bool)
    ensures
        yes == opted_in(env@, name@),
{
    match env.var_str(name) {
        Some(value) => same_text(value, "1") || same_text(value, "true") || same_text(value, "on")
            || same_text(value, "yes"),
        None => false,
    }
}

/// Whether a variable is set to a no.
pub fn env_opt_out(env: &Environment, name: &str) -> (no: bool)
    ensures
        no == opted_out(env@, name@),
{
    match env.var_str(name) {
        Some(value) => same_text(value, "0") || same_text(value, "false") || same_text(
            value,
            "off",
        ) || same_text(value, "no"),
        None => false,
    }
}

/// Whether a variable is set to something other than `0`, be it Unicode or not; `default` where it
/// is unset.
pub fn env_not_zero_or_default(env: &Environment, name: &str, default: bool) -> (on: bool)
    ensures
        on == not_zero_or(env@, name@, default),
{
    match env.var(name) {
        Some(EnvText::Text(value)) => !same_text(value.as_str(), "0"),
        Some(EnvText::NotUnicode) => true,
        None => default,
    }
}

// ── The decode fast path ────────────────────────────────────────────────────

/// A stage of the fast path is on unless its variable is set to a no.
fn fast_path_on(env: &Environment, name: &str) -> (on: bool)
    ensures
        on == !opted_out(env@, name@),
{
    !env_opt_out(env, name)
}

/// Attention projections straight from Q4_K weights.
pub fn q4k_direct_attn_enabled(env: &Environment) -> (on: bool)
    ensures
        on == !opted_out(env@, ENV_Q4K_DIRECT_ATTN@),
        on == !opted_out(env@, "LARQL_Q4K_DIRECT_ATTN"@),
{
    fast_path_on(env, ENV_Q4K_DIRECT_ATTN)
}

/// Integer activations for the attention projections.
pub fn q4k_attn_int8_enabled(env: &Environment) -> (on: bool)
    ensures
        on == !opted_out(env@, ENV_Q4K_ATTN_INT8@),
        on == !opted_out(env@, "LARQL_Q4K_ATTN_INT8"@),
{
    fast_path_on(env, ENV_Q4K_ATTN_INT8)
}

/// Vocabulary projection straight from Q4_K weights.
pub fn q4k_lm_head_enabled(env: &Environment) -> (on: bool)
    ensures
        on == !opted_out(env@, ENV_Q4K_LM_HEAD@),
        on == !opted_out(env@, "LARQL_Q4K_LM_HEAD"@),
{
    fast_path_on(env, ENV_Q4K_LM_HEAD)
}

/// Dense FFN straight from Q4_K weights.
pub fn q4k_direct_ffn_enabled(env: &Environment) -> (on: bool)
    ensures
        on == !opted_out(env@, ENV_Q4K_DIRECT_FFN@),
        on == !opted_out(env@, "LARQL_Q4K_DIRECT_FFN"@),
{
    fast_path_on(env, ENV_Q4K_DIRECT_FFN)
}

/// Hand-written kernels; read once, as it is asked per product.
pub fn q4k_asm_enabled(cache: &mut FlagCache, env: &Environment) -> (on: bool)
    ensures
        on == crate::env::cached(old(cache)@, !opted_out(env@, ENV_Q4K_ASM@)),
        on == crate::env::cached(old(cache)@, !opted_out(env@, "LARQL_Q4K_ASM"@)),
        final(cache)@ == Some(on),
{
    let fresh: bool = fast_path_on(env, ENV_Q4K_ASM);
    cache.get_or_init(fresh)
}

/// Spin-barrier pool; read once, as it is asked per parallel section.
pub fn spin_pool_enabled(cache: &mut FlagCache, env: &Environment) -> (on: bool)
    ensures
        on == crate::env::cached(old(cache)@, !opted_out(env@, ENV_SPIN_POOL@)),
        on == crate::env::cached(old(cache)@, !opted_out(env@, "LARQL_SPIN_POOL"@)),
        final(cache)@ == Some(on),
{
    let fresh: bool = fast_path_on(env, ENV_SPIN_POOL);
    cache.get_or_init(fresh)
}

// ── Diagnostics ─────────────────────────────────────────────────────────────

/// Debug output of the expert router is asked for.
pub fn moe_debug_enabled(env: &Environment) -> (on: bool)
    ensures
        on == env@.contains_key(ENV_MOE_DEBUG@),
        on == env@.contains_key("LARQL_MOE_DEBUG"@),
{
    env_flag(env, ENV_MOE_DEBUG)
}

/// The experts are to be bypassed.
pub fn skip_moe_enabled(env: &Environment) -> (on: bool)
    ensures
        on == env@.contains_key(ENV_SKIP_MOE@),
        on == env@.contains_key("LARQL_SKIP_MOE"@),
{
    env_flag(env, ENV_SKIP_MOE)
}

/// Profiling by decode stage is asked for.
pub fn split_profile_requested(env: &Environment) -> (on: bool)
    ensures
        on == env@.contains_key(ENV_PROFILE_SPLIT@),
        on == env@.contains_key("LARQL_PROFILE_SPLIT"@),
{
    env_flag(env, ENV_PROFILE_SPLIT)
}

// ── Laws ────────────────────────────────────────────────────────────────────

/// No value is both a yes and a no.
pub proof fn law_opt_in_excludes_opt_out(vars: crate::env::Vars, name: Seq<char>)
    ensures
        !(opted_in(vars, name) && opted_out(vars, name)),
{
    reveal_strlit("1");
    reveal_strlit("true");
    reveal_strlit("on");
    reveal_strlit("yes");
    reveal_strlit("0");
    reveal_strlit("false");
    reveal_strlit("off");
    reveal_strlit("no");
    if let Some(value) = crate::env::var_text(vars, name) {
        if is_yes(value) && is_no(value) {
            assert(value[0] == '1' || value[0] == 't' || value[0] == 'o' || value[0] == 'y');
            assert(value[0] == '0' || value[0] == 'f' || value[0] == 'o' || value[0] == 'n');
            assert(value == "on"@ && value == "off"@);
        }
    }
}

/// An unset variable leaves every default as it is: flags and opt-ins off, the fast path on.
pub proof fn law_unset_keeps_defaults(vars: crate::env::Vars, name: Seq<char>, default: bool)
    requires
        !vars.contains_key(name),
    ensures
        !opted_in(vars, name),
        !opted_out(vars, name),
        not_zero_or(vars, name, default) == default,
{
}

/// A variable that is set to nothing is a flag, but neither an opt-in nor an opt-out.
pub proof fn law_empty_is_neither_yes_nor_no(vars: crate::env::Vars, name: Seq<char>)
    requires
        crate::env::var_text(vars, name) == Some(Seq::<char>::empty()),
    ensures
        vars.contains_key(name),
        !opted_in(vars, name),
        !opted_out(vars, name),
{
    reveal_strlit("1");
    reveal_strlit("true");
    reveal_strlit("on");
    reveal_strlit("yes");
    reveal_strlit("0");
    reveal_strlit("false");
    reveal_strlit("off");
    reveal_strlit("no");
    assert("1"@.len() == 1 && "true"@.len() == 4 && "on"@.len() == 2 && "yes"@.len() == 3);
    assert("0"@.len() == 1 && "false"@.len() == 5 && "off"@.len() == 3 && "no"@.len() == 2);
}

/// Read as a flag and as on unless zero, a variable gives two answers exactly where it is unset,
/// or `0`.
pub proof fn law_flag_and_default_on_differ(vars: crate::env::Vars, name: Seq<char>)
    ensures
        vars.contains_key(name) != not_zero_or(vars, name, true) <==> !vars.contains_key(name)
            || crate::env::var_text(vars, name) == Some("0"@),
{
}

/// An opt-in is one of four words, and an opt-out one of four others, written exactly so.
pub proof fn law_yes_and_no_are_these_words(vars: crate::env::Vars, name: Seq<char>)
    ensures
        opted_in(vars, name) <==> vars.contains_key(name) && (vars[name]
            == crate::env::EnvTextView::Text("1"@) || vars[name] == crate::env::EnvTextView::Text(
            "true"@,
        ) || vars[name] == crate::env::EnvTextView::Text("on"@) || vars[name]
            == crate::env::EnvTextView::Text("yes"@)),
        opted_out(vars, name) <==> vars.contains_key(name) && (vars[name]
            == crate::env::EnvTextView::Text("0"@) || vars[name] == crate::env::EnvTextView::Text(
            "false"@,
        ) || vars[name] == crate::env::EnvTextView::Text("off"@) || vars[name]
            == crate::env::EnvTextView::Text("no"@)),
{
}

/// A variable that is on unless zero is off where it is set to `0`, on where it is set to anything
/// else, and the default where it is unset.
pub proof fn law_only_zero_switches_off(vars: crate::env::Vars, name: Seq<char>, default: bool)
    ensures
        vars.contains_key(name) ==> not_zero_or(vars, name, default) == (vars[name]
            != crate::env::EnvTextView::Text("0"@)),
        !vars.contains_key(name) ==> not_zero_or(vars, name, default) == default,
{
}

/// What one variable is set to says nothing of another: a reader looks at its own variable alone.
pub proof fn law_readers_look_at_their_own_variable(
    vars: crate::env::Vars,
    name: Seq<char>,
    other: Seq<char>,
    value: crate::env::EnvTextView,
    default: bool,
)
    requires
        name != other,
    ensures
        opted_in(vars.insert(other, value), name) == opted_in(vars, name),
        opted_out(vars.insert(other, value), name) == opted_out(vars, name),
        not_zero_or(vars.insert(other, value), name, default) == not_zero_or(vars, name, default),
{
}

} // verus!
