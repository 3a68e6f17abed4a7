use larql::ffn::{
    dense_ffn_forward, dense_ffn_forward_backend, Activation, BackendFfn, DenseFfn, FfnKeys,
    FfnStage, FfnType, FfnWeights, MissingTensor, Nonlinearity, NullFfn, RemoteMoeFfn, Route,
    Shape, Table, TensorSource, ViewFfn, WeightFfn, WeightsView,
};
use larql::q4k_ffn::{pad_rows, Q4kLayer, Q4kMatmulFfn};

const HIDDEN: usize = 16;
const INTERMEDIATE: usize = 32;
const NUM_LAYERS: usize = 2;

struct CpuBackend;

fn keys(layer: usize, biased: bool) -> FfnKeys {
    let bias = |part: &str| biased.then_some(format!("layers.{layer}.{part}.bias"));
    FfnKeys {
        gate: format!("layers.{layer}.gate"),
        up: format!("layers.{layer}.up"),
        down: format!("layers.{layer}.down"),
        up_bias: bias("up"),
        down_bias: bias("down"),
    }
}

fn make_weights(ffn_type: FfnType, activation: Activation, biased: bool) -> FfnWeights {
    let mut tensors = Table::new();
    let mut vectors = Table::new();
    let mut layers = vec![];
    for layer in 0..NUM_LAYERS {
        let keys = keys(layer, biased);
        tensors.insert(keys.up.clone(), shape(INTERMEDIATE, HIDDEN));
        tensors.insert(keys.down.clone(), shape(HIDDEN, INTERMEDIATE));
        if ffn_type == FfnType::Gated {
            tensors.insert(keys.gate.clone(), shape(INTERMEDIATE, HIDDEN));
        }
        if biased {
            vectors.insert(format!("layers.{layer}.up.bias"), INTERMEDIATE);
            vectors.insert(format!("layers.{layer}.down.bias"), HIDDEN);
        }
        layers.push(keys);
    }
    FfnWeights { ffn_type, activation, layers, tensors, vectors }
}

fn make_test_weights() -> FfnWeights {
    make_weights(FfnType::Gated, Activation::Other, false)
}

fn shape(rows: usize, cols: usize) -> Shape {
    Shape { rows, cols }
}

fn planned(plan: Result<DenseFfn, MissingTensor>) -> DenseFfn {
    match plan {
        Ok(ffn) => ffn,
        Err(missing) => panic!("{}", missing.message()),
    }
}

#[test]
fn dense_ffn_forward_shape() {
    let weights = make_test_weights();
    let ffn = planned(dense_ffn_forward(&WeightsView::dense(&weights), 0, shape(3, HIDDEN)));
    assert_eq!(ffn.output, shape(3, HIDDEN));
    assert_eq!(ffn.activation, shape(3, INTERMEDIATE));
}

#[test]
fn dense_ffn_forward_single_token_shape() {
    // Edge case: one row at the smallest meaningful seq_len.
    let weights = make_test_weights();
    let ffn = planned(dense_ffn_forward(&WeightsView::dense(&weights), 0, shape(1, HIDDEN)));
    assert_eq!(ffn.output, shape(1, HIDDEN));
    assert_eq!(ffn.activation, shape(1, INTERMEDIATE));
}

/// What a plan holds, apart from its route.
fn parts(
    ffn: DenseFfn,
) -> (Vec<(String, Shape)>, Option<String>, Nonlinearity, Option<String>, Shape, Shape) {
    let operands = ffn.gate.into_iter().chain([ffn.up, ffn.down]);
    let (f, up_bias) = match ffn.math.stage {
        FfnStage::Gated(f) => (f, None),
        FfnStage::NonGated(f, bias) => (f, bias),
    };
    (
        operands.map(|operand| (operand.key, operand.shape)).collect(),
        up_bias,
        f,
        ffn.math.down_bias,
        ffn.output,
        ffn.activation,
    )
}

#[test]
fn dense_ffn_forward_backend_matches_no_backend() {
    // backend=None should produce the same result as dense_ffn_forward
    let weights = make_test_weights();
    let view = WeightsView::dense(&weights);
    let one = planned(dense_ffn_forward(&view, 0, shape(2, HIDDEN)));
    let two = planned(dense_ffn_forward_backend(&view, 0, shape(2, HIDDEN), false));
    assert_eq!(one.route, two.route);
    assert_eq!(
        parts(one),
        parts(two),
        "output should match between dense_ffn_forward and backend(None)"
    );
}

#[test]
fn backend_ffn_matches_weight_ffn() {
    let weights = make_test_weights();
    let wffn = WeightFfn { weights: &weights };
    let bffn = BackendFfn { weights: &weights, backend: &CpuBackend };
    let out_w = planned(wffn.forward_with_activation(0, shape(2, HIDDEN)));
    let out_b = planned(bffn.forward_with_activation(0, shape(2, HIDDEN)));
    assert_eq!(parts(out_w), parts(out_b), "WeightFfn and BackendFfn differ");
}

#[test]
fn dense_ffn_forward_backend_with_some_matches_no_backend() {
    // With and without a backend the routes differ, and nothing else.
    let weights = make_test_weights();
    let view = WeightsView::dense(&weights);
    let none = planned(dense_ffn_forward_backend(&view, 0, shape(2, HIDDEN), false));
    let some = planned(dense_ffn_forward_backend(&view, 0, shape(2, HIDDEN), true));
    assert_ne!(none.route, some.route);
    assert_eq!(parts(none), parts(some), "plans diverged");
}

#[test]
fn dense_ffn_forward_all_layers() {
    let weights = make_test_weights();
    for layer in 0..NUM_LAYERS {
        let view = WeightsView::dense(&weights);
        let ffn = planned(dense_ffn_forward(&view, layer, shape(1, HIDDEN)));
        assert_eq!(ffn.output, shape(1, HIDDEN), "layer {layer} wrong shape");
        assert_eq!(ffn.up.key, format!("layers.{layer}.up"));
        assert_eq!(ffn.down.key, format!("layers.{layer}.down"));
        assert_eq!(ffn.gate.unwrap().key, format!("layers.{layer}.gate"));
    }
}

#[test]
fn weight_ffn_forward_with_activation_returns_both_arrays() {
    let weights = make_test_weights();
    let ffn = WeightFfn { weights: &weights };
    let both = planned(ffn.forward_with_activation(0, shape(3, HIDDEN)));
    assert_eq!(both.output, shape(3, HIDDEN));
    assert_eq!(both.activation, shape(3, INTERMEDIATE));
}

#[test]
fn dense_ffn_forward_starcoder2_runs_non_gated_branch() {
    // No gate matrix; just up + activation + down.
    let weights = make_weights(FfnType::NonGated, Activation::GeluTanh, true);
    let ffn = planned(dense_ffn_forward(&WeightsView::dense(&weights), 0, shape(2, HIDDEN)));
    assert_eq!(ffn.output, shape(2, HIDDEN));
    assert!(ffn.gate.is_none());
    assert!(matches!(ffn.math.stage, FfnStage::NonGated(Nonlinearity::GeluTanh, Some(_))));
    // Non-gated activation has shape (seq, intermediate).
    assert_eq!(ffn.activation, shape(2, INTERMEDIATE));
}

#[test]
fn dense_ffn_forward_starcoder2_bias_paths_fire() {
    // The architecture names both biases, and their vectors are there.
    let weights = make_weights(FfnType::NonGated, Activation::GeluTanh, true);
    let ffn = planned(dense_ffn_forward(&WeightsView::dense(&weights), 0, shape(1, HIDDEN)));
    match ffn.math.stage {
        FfnStage::NonGated(_, bias) => assert_eq!(bias.as_deref(), Some("layers.0.up.bias")),
        FfnStage::Gated(_) => panic!("gated"),
    }
    assert_eq!(ffn.math.down_bias.as_deref(), Some("layers.0.down.bias"));
}

#[test]
fn dense_ffn_forward_gemma3_runs_gelu_tanh_gate_up_branch() {
    let weights = make_weights(FfnType::Gated, Activation::GeluTanh, false);
    let ffn = planned(dense_ffn_forward(&WeightsView::dense(&weights), 0, shape(2, HIDDEN)));
    assert_eq!(ffn.output, shape(2, HIDDEN));
    assert!(matches!(ffn.math.stage, FfnStage::Gated(Nonlinearity::GeluTanh)));
}

#[test]
fn weight_ffn_implements_ffn_backend() {
    let weights = make_test_weights();
    let ffn = WeightFfn { weights: &weights };
    assert_eq!(ffn.name(), "weights");
    let out = planned(ffn.forward_with_activation(0, shape(2, HIDDEN)));
    assert_eq!(out.output, shape(2, HIDDEN));
}

#[test]
fn backend_ffn_forward_with_activation_returns_both_arrays() {
    let weights = make_test_weights();
    let ffn = BackendFfn { weights: &weights, backend: &CpuBackend };
    let both = planned(ffn.forward_with_activation(0, shape(2, HIDDEN)));
    assert_eq!(both.output, shape(2, HIDDEN));
    assert_eq!(both.activation, shape(2, INTERMEDIATE));
    assert_eq!(both.route, Route::Backend);
}

#[test]
fn backend_ffn_name_is_weights_plus_backend() {
    let weights = make_test_weights();
    let ffn = BackendFfn { weights: &weights, backend: &CpuBackend };
    assert_eq!(ffn.name(), "weights+backend");
}

#[test]
fn backend_changes_only_the_route() {
    let weights = make_weights(FfnType::NonGated, Activation::Gelu, true);
    let view = WeightsView::dense(&weights);
    let local = planned(dense_ffn_forward_backend(&view, 1, shape(2, HIDDEN), false));
    let routed = planned(dense_ffn_forward_backend(&view, 1, shape(2, HIDDEN), true));
    assert_eq!(local.route, Route::Local);
    assert_eq!(routed.route, Route::Backend);
    assert_eq!(parts(local), parts(routed));
}

#[test]
fn nonlinearity_follows_the_activation() {
    for (activation, expected) in [
        (Activation::GeluTanh, Nonlinearity::GeluTanh),
        (Activation::Gelu, Nonlinearity::GeluTanh),
        (Activation::Other, Nonlinearity::Silu),
    ] {
        let weights = make_weights(FfnType::Gated, activation, false);
        let plan = WeightFfn { weights: &weights }.forward_with_activation(0, shape(1, HIDDEN));
        let ffn = planned(plan);
        assert!(matches!(ffn.math.stage, FfnStage::Gated(f) if f == expected));
        assert!(ffn.gate.is_some());

        let weights = make_weights(FfnType::NonGated, activation, false);
        let plan = WeightFfn { weights: &weights }.forward_with_activation(0, shape(1, HIDDEN));
        let ffn = planned(plan);
        assert!(matches!(ffn.math.stage, FfnStage::NonGated(f, None) if f == expected));
        assert!(ffn.gate.is_none());
    }
}

#[test]
fn biases_are_added_where_named_and_there() {
    let mut weights = make_weights(FfnType::NonGated, Activation::Gelu, true);
    let ffn = planned(dense_ffn_forward(&WeightsView::dense(&weights), 0, shape(1, HIDDEN)));
    match ffn.math.stage {
        FfnStage::NonGated(_, bias) => assert_eq!(bias.as_deref(), Some("layers.0.up.bias")),
        FfnStage::Gated(_) => panic!("gated"),
    }
    assert_eq!(ffn.math.down_bias.as_deref(), Some("layers.0.down.bias"));

    weights.vectors = Table::new();
    let ffn = planned(dense_ffn_forward(&WeightsView::dense(&weights), 0, shape(1, HIDDEN)));
    assert!(matches!(ffn.math.stage, FfnStage::NonGated(_, None)));
    assert_eq!(ffn.math.down_bias, None);
}

#[test]
fn a_gated_ffn_leaves_the_up_bias_aside() {
    let weights = make_weights(FfnType::Gated, Activation::Other, true);
    let ffn = planned(dense_ffn_forward(&WeightsView::dense(&weights), 0, shape(1, HIDDEN)));
    assert!(matches!(ffn.math.stage, FfnStage::Gated(Nonlinearity::Silu)));
    assert_eq!(ffn.math.down_bias.as_deref(), Some("layers.0.down.bias"));
}

#[test]
fn missing_weights_are_named_in_order() {
    let missing = |there: &[&str], ffn_type: FfnType| {
        let mut weights = make_weights(ffn_type, Activation::Other, false);
        weights.tensors = Table::new();
        for key in there {
            weights.tensors.insert(key.to_string(), shape(1, 1));
        }
        let plan = dense_ffn_forward(&WeightsView::dense(&weights), 0, shape(1, 1));
        plan.err().map(|missing| missing.key)
    };
    let (up, down, gate) = ("layers.0.up", "layers.0.down", "layers.0.gate");
    assert_eq!(missing(&[], FfnType::Gated).as_deref(), Some(up));
    assert_eq!(missing(&[down, gate], FfnType::Gated).as_deref(), Some(up));
    assert_eq!(missing(&[up], FfnType::Gated).as_deref(), Some(down));
    assert_eq!(missing(&[up, down], FfnType::Gated).as_deref(), Some(gate));
    assert_eq!(missing(&[up, down, gate], FfnType::Gated), None);
    assert_eq!(missing(&[up, down], FfnType::NonGated), None);
}

#[test]
fn missing_weight_message_names_the_key() {
    let missing = MissingTensor { key: "layers.0.up".to_string() };
    assert_eq!(
        missing.message(),
        "FFN weight tensor missing — this is a `--compact` \
        vindex. Use `WalkFfn` instead of `WeightFfn` for inference \
        (or re-extract without `--compact` if you need dense matmul). (key: layers.0.up)"
    );
}

#[test]
fn scratch_matrices_are_taken_first() {
    let weights = make_test_weights();
    let mut scratch = Table::new();
    scratch.insert("layers.0.up".to_string(), shape(48, HIDDEN));
    let ffn = ViewFfn { view: WeightsView::with_scratch(&weights, &scratch) };
    assert_eq!(ffn.name(), "view");
    let plan = planned(ffn.forward_with_activation(0, shape(3, HIDDEN)));
    assert_eq!(plan.up.source, TensorSource::Scratch);
    assert_eq!(plan.down.source, TensorSource::Canonical);
    assert_eq!(plan.activation, shape(3, 48));
    let plan = planned(ffn.forward_with_activation(1, shape(3, HIDDEN)));
    assert_eq!(plan.up.source, TensorSource::Canonical);
    assert_eq!(plan.activation, shape(3, INTERMEDIATE));
}

#[test]
fn scratch_alone_is_enough() {
    let mut weights = make_test_weights();
    let scratch = std::mem::replace(&mut weights.tensors, Table::new());
    let view = WeightsView::with_scratch(&weights, &scratch);
    assert!(dense_ffn_forward(&view, 0, shape(1, HIDDEN)).is_ok());
    assert!(dense_ffn_forward(&WeightsView::dense(&weights), 0, shape(1, HIDDEN)).is_err());
}

#[test]
fn null_ffn_returns_its_input() {
    let x = vec![1.0f32, 2.0];
    assert_eq!(NullFfn.forward(3, &x), x);
    assert_eq!(NullFfn.forward_with_activation(3, &x), (x.clone(), x));
    assert_eq!(NullFfn.name(), "null");
}

#[test]
fn remote_moe_sends_experts_away_without_embeddings() {
    let weights = make_test_weights();
    let remote = "shards";
    let ffn = RemoteMoeFfn { weights: &weights, remote: &remote };
    assert_eq!(ffn.name(), "remote-moe");
    let block = ffn.forward_moe_full_layer::<Vec<f32>>(1).unwrap();
    assert_eq!(block.layer, 1);
    assert_eq!(block.dense.name(), "weights");
    assert!(block.ple_input.is_none());
    assert_eq!(block.remote, Some(&"shards"));
    let dense = planned(ffn.forward_with_activation(0, shape(2, HIDDEN)));
    assert_eq!((dense.output, dense.route), (shape(2, HIDDEN), Route::Local));
}

/// Swapping the FFN to the Q4_K bytes must not change the computation, nor the shapes.
#[test]
fn q4k_matmul_ffn_matches_dequant_dense() {
    for (ffn_type, biased) in [(FfnType::Gated, false), (FfnType::NonGated, true)] {
        let weights = make_weights(ffn_type, Activation::GeluTanh, biased);
        // The layer's matrices, dequantised: two blocks per row of the down matrix.
        let mut scratch = Table::new();
        scratch.insert("layers.0.gate".to_string(), shape(512, HIDDEN));
        scratch.insert("layers.0.up".to_string(), shape(512, HIDDEN));
        scratch.insert("layers.0.down".to_string(), shape(HIDDEN, 512));
        let view = WeightsView::with_scratch(&weights, &scratch);
        let dense = planned(dense_ffn_forward(&view, 0, shape(3, HIDDEN)));

        let entry = Q4kLayer { features: 512, down_bytes: Some(HIDDEN * 2 * 144) };
        let index = vec![entry; NUM_LAYERS];
        let ffn = Q4kMatmulFfn { weights: &weights, index: &index };
        assert_eq!(ffn.name(), "q4k-matmul");
        let plan = ffn.forward_with_activation(0, shape(3, HIDDEN));

        assert_eq!((plan.gate_slice, plan.up_slice, plan.down_slice), (0, 1, 2));
        assert_eq!((plan.projection, plan.down), (dense.up.shape, dense.down.shape));
        assert!(!plan.pads);
        assert_eq!(plan.activation, dense.activation);
        assert_eq!(plan.output, dense.output);
        assert_eq!(plan.output, shape(3, HIDDEN));
        assert_eq!(plan.math.down_bias, dense.math.down_bias);
        match (plan.math.stage, dense.math.stage) {
            (FfnStage::Gated(f), FfnStage::Gated(g)) => assert_eq!(f, g),
            (FfnStage::NonGated(f, up_bias), FfnStage::NonGated(g, dense_up_bias)) => {
                assert_eq!((f, up_bias), (g, dense_up_bias));
            }
            _ => panic!("one is gated, the other is not"),
        }
    }
}

#[test]
fn q4k_rows_are_padded_to_whole_blocks() {
    let weights = make_test_weights();
    let index = vec![Q4kLayer { features: 300, down_bytes: Some(HIDDEN * 2 * 144) }; NUM_LAYERS];
    let plan = Q4kMatmulFfn { weights: &weights, index: &index }
        .forward_with_activation(0, shape(2, HIDDEN));
    assert_eq!(plan.down.cols, 512);
    assert!(plan.pads);
    assert_eq!(plan.activation, shape(2, 300));
}

#[test]
fn padding_keeps_rows_and_adds_zeros() {
    let data = vec![1.0f32, 2.0, 3.0, 4.0, 5.0, 6.0];
    assert_eq!(
        pad_rows(&data, 2, 3, 5, 0.0),
        vec![1.0, 2.0, 3.0, 0.0, 0.0, 4.0, 5.0, 6.0, 0.0, 0.0]
    );
    assert_eq!(pad_rows(&data, 3, 2, 2, 0.0), data);
    assert_eq!(pad_rows(&vec![], 2, 0, 2, 9u8), vec![9, 9, 9, 9]);
    assert!(pad_rows(&vec![], 0, 3, 2, 0u8).is_empty());
}
