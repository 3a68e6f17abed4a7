use larql::debug::{extract_down_meta_timing, ENV_EXTRACT_DOWN_META_TIMING};
use larql::decode_stages::{
    is_enabled, record_dense, record_expert, StageTimers, ENV_DECODE_STAGES,
};
use larql::env::{EnvText, Environment, FlagCache};
use larql::options::{
    env_flag, env_flag_any, env_nonempty_value, env_not_zero_or_default, env_opt_in, env_opt_out,
    env_usize, env_value, moe_debug_enabled, q4k_asm_enabled, q4k_attn_int8_enabled,
    q4k_direct_attn_enabled, q4k_direct_ffn_enabled, q4k_lm_head_enabled, skip_moe_enabled,
    spin_pool_enabled, split_profile_requested, ENV_FUSED_ATTN, ENV_FUSED_DOWN, ENV_GPU_TIMING,
    ENV_MOE_DEBUG, ENV_PROFILE_SPLIT, ENV_Q4K_ASM, ENV_Q4K_ATTN_INT8, ENV_Q4K_DIRECT_ATTN,
    ENV_Q4K_DIRECT_FFN, ENV_Q4K_LM_HEAD, ENV_SKIP_MOE, ENV_SKIP_OUTER_NORM, ENV_SPIN_POOL,
    ENV_STAGE_DUMP_LAYER,
};

fn with_env_vars<T>(vars: &[(&str, Option<&str>)], f: impl FnOnce(&Environment) -> T) -> T {
    let mut env = Environment::new();
    for (name, value) in vars {
        match value {
            Some(value) => env.set_var(name, EnvText::Text(value.to_string())),
            None => env.remove_var(name),
        }
    }
    f(&env)
}

fn with_env<T>(name: &str, value: Option<&str>, f: impl FnOnce(&Environment) -> T) -> T {
    with_env_vars(&[(name, value)], f)
}

#[test]
fn env_flag_and_value_helpers_read_presence_and_content() {
    with_env(ENV_GPU_TIMING, Some("1"), |env| {
        assert!(env_flag(env, ENV_GPU_TIMING));
        assert_eq!(env_value(env, ENV_GPU_TIMING).as_deref(), Some("1"));
        assert_eq!(env_nonempty_value(env, ENV_GPU_TIMING).as_deref(), Some("1"));
    });

    with_env(ENV_GPU_TIMING, Some(""), |env| {
        assert!(env_flag(env, ENV_GPU_TIMING));
        assert_eq!(env_value(env, ENV_GPU_TIMING).as_deref(), Some(""));
        assert!(env_nonempty_value(env, ENV_GPU_TIMING).is_none());
    });

    with_env(ENV_GPU_TIMING, None, |env| {
        assert!(!env_flag(env, ENV_GPU_TIMING));
        assert!(env_value(env, ENV_GPU_TIMING).is_none());
    });
}

#[test]
fn env_numeric_and_boolean_helpers_parse_expected_forms() {
    with_env(ENV_STAGE_DUMP_LAYER, Some("7"), |env| {
        assert_eq!(env_usize(env, ENV_STAGE_DUMP_LAYER), Some(7));
    });
    with_env(ENV_STAGE_DUMP_LAYER, Some("not-a-number"), |env| {
        assert_eq!(env_usize(env, ENV_STAGE_DUMP_LAYER), None);
    });

    for value in ["1", "true", "on", "yes"] {
        with_env(ENV_FUSED_ATTN, Some(value), |env| {
            assert!(env_opt_in(env, ENV_FUSED_ATTN));
            assert!(!env_opt_out(env, ENV_FUSED_ATTN));
        });
    }

    for value in ["0", "false", "off", "no"] {
        with_env(ENV_FUSED_ATTN, Some(value), |env| {
            assert!(!env_opt_in(env, ENV_FUSED_ATTN));
            assert!(env_opt_out(env, ENV_FUSED_ATTN));
        });
    }

    with_env(ENV_FUSED_DOWN, None, |env| {
        assert!(env_not_zero_or_default(env, ENV_FUSED_DOWN, true));
        assert!(!env_not_zero_or_default(env, ENV_FUSED_DOWN, false));
    });
    with_env(ENV_FUSED_DOWN, Some("0"), |env| {
        assert!(!env_not_zero_or_default(env, ENV_FUSED_DOWN, true));
    });
    with_env(ENV_FUSED_DOWN, Some("1"), |env| {
        assert!(env_not_zero_or_default(env, ENV_FUSED_DOWN, false));
    });
}

#[test]
fn namespaced_toggle_helpers_read_their_flag() {
    with_env(ENV_SKIP_MOE, Some("1"), |env| assert!(skip_moe_enabled(env)));
    with_env(ENV_MOE_DEBUG, Some("1"), |env| assert!(moe_debug_enabled(env)));
    with_env(ENV_PROFILE_SPLIT, Some("1"), |env| {
        assert!(split_profile_requested(env))
    });
}

#[test]
fn env_flag_any_and_debug_helpers_cover_absent_and_present_cases() {
    with_env_vars(&[(ENV_SKIP_OUTER_NORM, None), (ENV_MOE_DEBUG, None)], |env| {
        assert!(!env_flag(env, ENV_SKIP_OUTER_NORM));
        assert!(!env_flag_any(env, &[ENV_SKIP_OUTER_NORM, ENV_MOE_DEBUG]));
        assert!(!moe_debug_enabled(env));
    });

    with_env_vars(
        &[(ENV_SKIP_OUTER_NORM, Some("1")), (ENV_MOE_DEBUG, Some("1"))],
        |env| {
            assert!(env_flag(env, ENV_SKIP_OUTER_NORM));
            assert!(env_flag_any(env, &[ENV_SKIP_OUTER_NORM, ENV_MOE_DEBUG]));
            assert!(moe_debug_enabled(env));
        },
    );
}

#[test]
fn flag_any_needs_only_one_of_its_names() {
    with_env(ENV_MOE_DEBUG, Some(""), |env| {
        assert!(env_flag_any(env, &[ENV_SKIP_OUTER_NORM, ENV_MOE_DEBUG]));
        assert!(!env_flag_any(env, &[ENV_SKIP_OUTER_NORM]));
        assert!(!env_flag_any(env, &[]));
    });
}

#[test]
fn numbers_parse_as_std_parses_them() {
    let texts = [
        "", "+", "-", "0", "00012", "+7", "++7", "-7", " 7", "7 ", "1_000", "12a", "٣",
        "18446744073709551615", "18446744073709551616", "99999999999999999999999",
    ];
    for text in texts {
        with_env(ENV_STAGE_DUMP_LAYER, Some(text), |env| {
            assert_eq!(env_usize(env, ENV_STAGE_DUMP_LAYER), text.parse::<usize>().ok(), "{text:?}");
        });
    }
    with_env(ENV_STAGE_DUMP_LAYER, None, |env| {
        assert_eq!(env_usize(env, ENV_STAGE_DUMP_LAYER), None);
    });
}

#[test]
fn text_that_is_not_unicode_is_set_but_has_no_value() {
    let mut env = Environment::new();
    env.set_var(ENV_FUSED_DOWN, EnvText::NotUnicode);
    assert!(env_flag(&env, ENV_FUSED_DOWN));
    assert!(env_value(&env, ENV_FUSED_DOWN).is_none());
    assert!(env_nonempty_value(&env, ENV_FUSED_DOWN).is_none());
    assert!(env_usize(&env, ENV_FUSED_DOWN).is_none());
    assert!(!env_opt_in(&env, ENV_FUSED_DOWN));
    assert!(!env_opt_out(&env, ENV_FUSED_DOWN));
    assert!(env_not_zero_or_default(&env, ENV_FUSED_DOWN, true));
    // Set and not `0`, so the default does not apply.
    assert!(env_not_zero_or_default(&env, ENV_FUSED_DOWN, false));
}

#[test]
fn yes_and_no_are_exact_words() {
    for value in ["", "TRUE", "On", "1 ", "y", "2", "FALSE", "n"] {
        with_env(ENV_FUSED_ATTN, Some(value), |env| {
            assert!(!env_opt_in(env, ENV_FUSED_ATTN), "{value:?}");
            assert!(!env_opt_out(env, ENV_FUSED_ATTN), "{value:?}");
        });
    }
}

#[test]
fn flag_and_default_on_differ_on_zero_and_unset() {
    for (value, flag, on) in [
        (None, false, true),
        (Some("0"), true, false),
        (Some("1"), true, true),
        (Some(""), true, true),
    ] {
        with_env(ENV_FUSED_DOWN, value, |env| {
            assert_eq!(env_flag(env, ENV_FUSED_DOWN), flag);
            assert_eq!(env_not_zero_or_default(env, ENV_FUSED_DOWN, true), on);
        });
    }
}

#[test]
fn fast_path_stages_are_on_unless_opted_out() {
    let stages: [(&str, fn(&Environment) -> bool); 4] = [
        (ENV_Q4K_DIRECT_ATTN, q4k_direct_attn_enabled),
        (ENV_Q4K_ATTN_INT8, q4k_attn_int8_enabled),
        (ENV_Q4K_LM_HEAD, q4k_lm_head_enabled),
        (ENV_Q4K_DIRECT_FFN, q4k_direct_ffn_enabled),
    ];
    for (name, enabled) in stages {
        with_env(name, None, |env| assert!(enabled(env)));
        with_env(name, Some("1"), |env| assert!(enabled(env)));
        with_env(name, Some("maybe"), |env| assert!(enabled(env)));
        for no in ["0", "false", "off", "no"] {
            with_env(name, Some(no), |env| assert!(!enabled(env)));
        }
        for (other, _) in stages {
            if other != name {
                with_env(other, Some("0"), |env| assert!(enabled(env)));
            }
        }
    }
}

#[test]
fn cached_stages_keep_their_first_answer() {
    for (name, enabled) in [
        (ENV_Q4K_ASM, q4k_asm_enabled as fn(&mut FlagCache, &Environment) -> bool),
        (ENV_SPIN_POOL, spin_pool_enabled),
    ] {
        let mut cache = FlagCache::new();
        with_env(name, Some("off"), |env| assert!(!enabled(&mut cache, env)));
        with_env(name, None, |env| assert!(!enabled(&mut cache, env)));

        let mut cache = FlagCache::new();
        with_env(name, None, |env| assert!(enabled(&mut cache, env)));
        with_env(name, Some("off"), |env| assert!(enabled(&mut cache, env)));
    }
}

#[test]
fn decode_timers_run_only_where_the_variable_is_one() {
    for (value, on) in [(None, false), (Some("1"), true), (Some("true"), false), (Some(""), false)] {
        let mut cache = FlagCache::new();
        let mut timers = StageTimers::new();
        with_env(ENV_DECODE_STAGES, value, |env| {
            record_dense(&mut cache, env, &mut timers, 3_000_000);
            record_expert(&mut cache, env, &mut timers, 500_000);
            record_dense(&mut cache, env, &mut timers, 1_000_000);
            assert_eq!(is_enabled(&mut cache, env), on);
        });
        assert_eq!(timers.dense_ns, if on { 4_000_000 } else { 0 });
        assert_eq!(timers.expert_ns, if on { 500_000 } else { 0 });
    }
}

#[test]
fn down_meta_timing_is_asked_for_by_any_value() {
    for (value, on) in [(None, false), (Some("1"), true), (Some("0"), true), (Some(""), true)] {
        let mut cache = FlagCache::new();
        with_env(ENV_EXTRACT_DOWN_META_TIMING, value, |env| {
            assert_eq!(extract_down_meta_timing(&mut cache, env), on);
        });
        let later = if on { None } else { Some("1") };
        with_env(ENV_EXTRACT_DOWN_META_TIMING, later, |env| {
            assert_eq!(extract_down_meta_timing(&mut cache, env), on);
        });
    }
}
