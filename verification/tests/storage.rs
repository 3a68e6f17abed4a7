use larql::boundary_dispatch::{
    append_rows, clip_overflow, decode_request, decode_step_via_dispatch, dispatch_supported,
    try_prefill_via_dispatch, BoundaryLayerPolicy, ColdMove, DecodeRequest, DecodeRun, Decoded,
    PrefillRun, Prefilled, RsStorePerLayer, StateDump,
};
use larql::error::VindexError;
use larql::model_weights::{
    QuantFormat, StreamingContext, WeightOptions, WeightSource, WeightWrite,
};

fn context(
    level_writes_attn: bool,
    quant: QuantFormat,
    inputs: (bool, bool, bool),
) -> StreamingContext<u8, &'static str, &'static str> {
    StreamingContext {
        extract_level: 3,
        level_writes_attn,
        quant,
        weight_opts: WeightOptions { level: 0, rest: "plain" },
        q4k_opts: "q4k",
        has_gguf: inputs.0,
        has_shards: inputs.1,
        has_tensor_index: inputs.2,
    }
}

#[test]
fn weights_are_skipped_below_attention() {
    for inputs in [(false, false, false), (true, true, true)] {
        let write = context(false, QuantFormat::Unquantised, inputs).maybe_write_model_weights();
        assert!(matches!(write, Ok(WeightWrite::Skip)));
    }
}

#[test]
fn plain_weights_carry_the_extract_level() {
    for (inputs, expected) in [
        ((true, false, false), WeightSource::Gguf),
        ((true, true, true), WeightSource::Gguf),
        ((false, true, true), WeightSource::Safetensors),
    ] {
        match context(true, QuantFormat::Unquantised, inputs).maybe_write_model_weights() {
            Ok(WeightWrite::Plain { source, options }) => {
                assert_eq!(source, expected);
                assert_eq!((options.level, options.rest), (3, "plain"));
            }
            _ => panic!("not plain"),
        }
    }
}

#[test]
fn quantising_promotes_every_level() {
    for writes_attn in [false, true] {
        let inputs = (false, true, true);
        match context(writes_attn, QuantFormat::Q4K, inputs).maybe_write_model_weights() {
            Ok(WeightWrite::Quantised { source, q4k_options }) => {
                assert_eq!(source, WeightSource::Safetensors);
                assert_eq!(q4k_options, "q4k");
            }
            _ => panic!("not quantised"),
        }
    }
}

#[test]
fn weights_without_an_input_are_an_error() {
    for inputs in [(false, false, false), (false, true, false), (false, false, true)] {
        for (writes_attn, quant) in [(true, QuantFormat::Unquantised), (false, QuantFormat::Q4K)] {
            match context(writes_attn, quant, inputs).maybe_write_model_weights() {
                Err(VindexError::Parse(text)) => assert_eq!(
                    text,
                    "neither safetensors nor GGUF tensors available for weight writing"
                ),
                _ => panic!("written"),
            }
        }
    }
}

/// A row, by layer and position.
type Row = (usize, usize);
type Store = RsStorePerLayer<Row, char>;

/// Rows of `layers` layers, one per position.
fn rows(layers: usize, positions: std::ops::Range<usize>) -> Vec<Vec<Row>> {
    (0..layers).map(|layer| positions.clone().map(|position| (layer, position)).collect()).collect()
}

fn policy() -> BoundaryLayerPolicy<char> {
    BoundaryLayerPolicy { entries: vec!['p', 'q'], codecs: vec!['a', 'b', 'c'] }
}

fn prefill_run(
    complete: bool,
    layers: usize,
    prompt_len: usize,
) -> Option<PrefillRun<&'static str, &'static str, Row>> {
    let dump = StateDump { complete, rows: rows(layers, 0..prompt_len) };
    Some(PrefillRun { hidden: "hidden", handle: "handle", dump })
}

fn prefilled(
    layers: usize,
    prompt_len: usize,
    window: Option<usize>,
) -> Prefilled<&'static str, &'static str, Row, char> {
    let run = prefill_run(true, layers, prompt_len);
    try_prefill_via_dispatch(true, true, run, prompt_len, window, &policy()).unwrap()
}

/// Runs one step, whose row of each layer names its position.
fn step(store: Store) -> Decoded<&'static str, Row, char> {
    let position = store.next_position;
    let layers = store.stored.len();
    let dump = StateDump { complete: true, rows: rows(layers, position..position + 1) };
    decode_step_via_dispatch(store, Some(DecodeRun { hidden: "next", dump }), &policy()).unwrap()
}

fn cold_positions(store: &Store) -> Option<Vec<usize>> {
    let cold = store.cold_encoded.as_ref()?;
    Some(cold.iter().map(|layer| layer.n_positions).collect())
}

fn moved(write: &Option<ColdMove<Row, char>>) -> Option<(bool, usize, &[char], &[Vec<Row>])> {
    let write = write.as_ref()?;
    Some((write.create, write.abs_position, &write.codecs, &write.rows))
}

#[test]
fn prefill_falls_back_without_support_or_dump() {
    assert!(!dispatch_supported(true, false));
    assert!(!dispatch_supported(false, true));
    assert!(dispatch_supported(true, true));
    let policy = policy();
    let run = || prefill_run(true, 1, 6);
    assert!(try_prefill_via_dispatch(false, true, run(), 6, None, &policy).is_none());
    assert!(try_prefill_via_dispatch(true, false, run(), 6, None, &policy).is_none());
    let declined: Option<PrefillRun<(), (), Row>> = None;
    assert!(try_prefill_via_dispatch(true, true, declined, 6, None, &policy).is_none());
    let partial = prefill_run(false, 1, 6);
    assert!(try_prefill_via_dispatch(true, true, partial, 6, None, &policy).is_none());
}

#[test]
fn prefill_within_the_window_stays_hot() {
    for window in [None, Some(6), Some(7)] {
        let made = prefilled(2, 6, window);
        assert_eq!((made.hidden, made.handle), ("hidden", "handle"));
        assert_eq!(made.store.stored, rows(2, 0..6));
        assert!(made.store.cold_encoded.is_none());
        assert!(made.store.cold_kv.is_none());
        assert!(made.write.is_none());
        assert_eq!(made.store.cold_abs_start, 0);
        assert_eq!(made.store.next_position, 6);
        assert_eq!(made.store.max_window, window);
        assert_eq!(made.store.policy_codecs, vec!['p', 'q']);
    }
}

#[test]
fn prefill_beyond_the_window_makes_the_cold_tier() {
    let made = prefilled(2, 6, Some(4));
    assert_eq!(made.store.stored, rows(2, 2..6));
    assert_eq!(cold_positions(&made.store), Some(vec![2, 2]));
    assert_eq!(made.store.cold_kv, Some(vec![2, 2]));
    let codecs: Vec<char> =
        made.store.cold_encoded.unwrap().iter().map(|layer| layer.codec).collect();
    assert_eq!(codecs, vec!['a', 'b']);
    assert_eq!(moved(&made.write), Some((true, 0, &['a', 'b'][..], &rows(2, 0..2)[..])));
}

#[test]
fn decode_steps_run_at_consecutive_positions() {
    let mut store = prefilled(1, 3, None).store;
    for position in 3..8 {
        assert_eq!(
            decode_request(&store, 42),
            DecodeRequest { token_id: 42, abs_position: position }
        );
        store = step(store).store;
    }
}

#[test]
fn decode_appends_a_row_and_evicts_the_oldest() {
    let mut store = prefilled(2, 6, Some(4)).store;
    for position in 6..9 {
        assert_eq!(store.next_position, position);
        let made = step(store);
        assert_eq!(made.hidden, "next");
        store = made.store;
        assert_eq!(store.stored, rows(2, position - 3..position + 1));
        let oldest = position - 4;
        assert_eq!(
            moved(&made.write),
            Some((false, oldest, &['a', 'b'][..], &rows(2, oldest..oldest + 1)[..]))
        );
        assert_eq!(cold_positions(&store), Some(vec![oldest + 1; 2]));
        assert_eq!(store.cold_kv, Some(vec![oldest + 1; 2]));
        assert_eq!(store.max_window, Some(4));
        assert_eq!(store.policy_codecs, vec!['p', 'q']);
    }
}

#[test]
fn cold_rows_and_hot_rows_are_all_rows_in_order() {
    let made = prefilled(3, 2, Some(3));
    let mut cold: Vec<Vec<Row>> = vec![vec![]; 3];
    let mut store = made.store;
    for _ in 0..5 {
        let made = step(store);
        store = made.store;
        if let Some(write) = made.write {
            for (layer, taken) in write.rows.into_iter().enumerate() {
                cold[layer].extend(taken);
            }
        }
    }
    for (layer, hot) in store.stored.iter().enumerate() {
        let all: Vec<Row> = cold[layer].iter().chain(hot).copied().collect();
        assert_eq!(all, rows(3, 0..7)[layer]);
    }
}

#[test]
fn a_decode_step_can_make_the_cold_tier() {
    let made = step(prefilled(2, 4, Some(4)).store);
    assert_eq!(moved(&made.write), Some((true, 0, &['a', 'b'][..], &rows(2, 0..1)[..])));
    assert_eq!(made.store.cold_kv, Some(vec![1, 1]));
}

#[test]
fn codecs_are_needed_only_to_make_the_cold_tier() {
    let none = BoundaryLayerPolicy { entries: vec![], codecs: vec![] };
    let run = prefill_run(true, 2, 3);
    let made = try_prefill_via_dispatch(true, true, run, 3, Some(3), &none).unwrap();
    assert!(made.write.is_none());
    let store = prefilled(2, 6, Some(4)).store;
    let dump = StateDump { complete: true, rows: rows(2, 6..7) };
    let run = Some(DecodeRun { hidden: (), dump });
    let made = decode_step_via_dispatch(store, run, &none).unwrap();
    assert_eq!(moved(&made.write), Some((false, 2, &['a', 'b'][..], &rows(2, 2..3)[..])));
}

#[test]
fn decode_takes_the_first_row_of_each_layer() {
    let store = prefilled(1, 1, None).store;
    let dump = StateDump { complete: true, rows: vec![vec![(0, 10), (0, 11)]] };
    let run = Some(DecodeRun { hidden: (), dump });
    let made = decode_step_via_dispatch(store, run, &policy()).unwrap();
    assert_eq!(made.store.stored, vec![vec![(0, 0), (0, 10)]]);
}

#[test]
fn decode_fails_with_the_dump() {
    let failed: Option<DecodeRun<(), Row>> = None;
    let store = prefilled(1, 2, None).store;
    assert!(decode_step_via_dispatch(store, failed, &policy()).is_none());
    let store = prefilled(1, 2, None).store;
    let dump = StateDump { complete: false, rows: vec![] };
    let partial = Some(DecodeRun { hidden: (), dump });
    assert!(decode_step_via_dispatch(store, partial, &policy()).is_none());
}

#[test]
fn a_model_without_layers_never_overflows() {
    let made = prefilled(0, 0, Some(0));
    assert!(made.write.is_none());
    assert!(made.store.cold_encoded.is_none());
}

#[test]
fn rows_are_appended_to_their_own_layer() {
    let mut stored = vec![vec![1], vec![], vec![2, 3]];
    append_rows(&mut stored, vec![7, 8, 9]);
    assert_eq!(stored, vec![vec![1, 7], vec![8], vec![2, 3, 9]]);
}

#[test]
fn the_oldest_rows_are_clipped() {
    let (kept, taken) = clip_overflow(vec![vec![1, 2, 3], vec![4]], Some(1));
    assert_eq!((kept, taken), (vec![vec![3], vec![4]], vec![vec![1, 2], vec![]]));
    let (kept, taken) = clip_overflow(vec![vec![1, 2]], Some(0));
    assert_eq!((kept, taken), (vec![vec![]], vec![vec![1, 2]]));
    let (kept, taken) = clip_overflow(vec![vec![1, 2]], None);
    assert_eq!((kept, taken), (vec![vec![1, 2]], vec![vec![]]));
}
