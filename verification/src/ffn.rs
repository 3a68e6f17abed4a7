//! Feed-forward blocks: which products, activations and biases make up a layer's FFN.
//!
//! Gated: activation(x · gateᵀ) * (x · upᵀ) · downᵀ + bias. Not gated: activation(x · upᵀ + bias) ·
//! downᵀ + bias. A plan names the operands and the functions and gives the shapes of the results;
//! the caller carries it out on its arrays.

use vstd::hash_map::StringHashMap;
use vstd::prelude::*;

verus! {

// ── What a model says of its FFN ────────────────────────────────────────────

/// Whether the FFN has a gate.
#[derive(PartialEq, Eq, Structural, Clone, Copy, Debug)]
pub enum FfnType {
    /// The up projection is multiplied with an activated gate projection.
    Gated,
    /// The up projection itself is activated.
    NonGated,
}

/// The activation that a model names.
#[derive(PartialEq, Eq, Structural, Clone, Copy, Debug)]
pub enum Activation {
    /// The tanh approximation of GELU.
    GeluTanh,
    /// GELU.
    Gelu,
    /// Any other, for which SiLU is taken.
    Other,
}

/// Rows and columns.
#[derive(PartialEq, Eq, Structural, Clone, Copy, Debug)]
pub struct Shape {
    /// Number of rows.
    pub rows: usize,
    /// Number of columns.
    pub cols: usize,
}

/// The names of a layer's FFN weights.
pub struct FfnKeys {
    /// Gate projection.
    pub gate: String,
    /// Up projection.
    pub up: String,
    /// Down projection.
    pub down: String,
    /// Bias of the up projection, where the model has one.
    pub up_bias: Option<String>,
    /// Bias of the down projection, where the model has one.
    pub down_bias: Option<String>,
}

/// What is known of a model's weights of one kind, by name.
#[verifier::reject_recursive_types(T)]
pub struct Table<T> {
    entries: StringHashMap<T>,
}

impl<T> View for Table<T> {
    type V = Map<Seq<char>, T>;

    closed spec fn view(&self) -> Map<Seq<char>, T> {
        self.entries@
    }
}

impl<T: Copy> Table<T> {
    /// An empty table.
    pub fn new() -> (table: Self)
        ensures
            table@ == Map::<Seq<char>, T>::empty(),
    {
        Table { entries: StringHashMap::new() }
    }

    /// Adds an entry, in place of any other of that name.
    pub fn insert(&mut self, key: String, value: T)
        ensures
            final(self)@ == old(self)@.insert(key@, value),
    {
        self.entries.insert(key, value);
    }

    /// The entry of a name.
    pub fn get(&self, key: &str) -> (value: Option<T>)
        ensures
            value == if self@.contains_key(key@) {
                Some(self@[key@])
            } else {
                None
            },
    {
        match self.entries.get(key) {
            Some(value) => Some(*value),
            None => None,
        }
    }
}

/// What is known of a model's FFN weights.
pub struct FfnWeights {
    /// Whether the FFN has a gate.
    pub ffn_type: FfnType,
    /// The model's activation.
    pub activation: Activation,
    /// The weight names of each layer.
    pub layers: Vec<FfnKeys>,
    /// The matrices that are there, with their shapes.
    pub tensors: Table<Shape>,
    /// The vectors that are there, with their lengths.
    pub vectors: Table<usize>,
}

impl FfnWeights {
    /// A bias that the model names and whose vector is there.
    fn bias(&self, key: &Option<String>) -> (bias: Option<String>)
        ensures
            crate::text::text_of(bias) == bias_of(self.vectors@, crate::text::text_of(*key)),
    {
        match key {
            Some(name) => if self.vectors.get(name.as_str()).is_some() {
                Some(name.clone())
            } else {
                None
            },
            None => None,
        }
    }
}

/// The bias that is added: the one named, if its vector is there.
pub open spec fn bias_of(vectors: Map<Seq<char>, usize>, key: Option<Seq<char>>) -> Option<
    Seq<char>,
> {
    match key {
        Some(name) => if vectors.contains_key(name) {
            Some(name)
        } else {
            None
        },
        None => None,
    }
}

// ── The computation ─────────────────────────────────────────────────────────

/// The function that an activated projection goes through.
#[derive(PartialEq, Eq, Structural, Clone, Copy, Debug)]
pub enum Nonlinearity {
    /// The tanh approximation of GELU.
    GeluTanh,
    /// SiLU.
    Silu,
}

/// How a layer's activation is computed.
pub enum FfnStage {
    /// The activated gate projection, times the up projection.
    Gated(Nonlinearity),
    /// The activated up projection, with a bias added first where there is one.
    NonGated(Nonlinearity, Option<String>),
}

/// A layer's computation, apart from where its matrices are.
pub struct FfnMath {
    /// How the activation is computed.
    pub stage: FfnStage,
    /// Bias added to the output.
    pub down_bias: Option<String>,
}

/// An [`FfnStage`] with its names as characters.
pub enum FfnStageView {
    /// The activated gate projection, times the up projection.
    Gated(Nonlinearity),
    /// The activated up projection.
    NonGated(Nonlinearity, Option<Seq<char>>),
}

/// An [`FfnMath`] with its names as characters.
pub struct FfnMathView {
    /// How the activation is computed.
    pub stage: FfnStageView,
    /// Bias added to the output.
    pub down_bias: Option<Seq<char>>,
}

impl View for FfnMath {
    type V = FfnMathView;

    open spec fn view(&self) -> FfnMathView {
        FfnMathView {
            stage: match self.stage {
                FfnStage::Gated(f) => FfnStageView::Gated(f),
                FfnStage::NonGated(f, bias) => FfnStageView::NonGated(
                    f,
                    crate::text::text_of(bias),
                ),
            },
            down_bias: crate::text::text_of(self.down_bias),
        }
    }
}

/// The nonlinearity for the activation that a model names: GELU, of either form, is computed by its
/// tanh approximation.
pub open spec fn nonlinearity_of(activation: Activation) -> Nonlinearity {
    match activation {
        Activation::GeluTanh | Activation::Gelu => Nonlinearity::GeluTanh,
        Activation::Other => Nonlinearity::Silu,
    }
}

/// A layer's computation, as the architecture has it.
pub open spec fn math_of(weights: FfnWeights, layer: int) -> FfnMathView {
    let keys = weights.layers@[layer];
    let f = nonlinearity_of(weights.activation);
    FfnMathView {
        stage: match weights.ffn_type {
            FfnType::Gated => FfnStageView::Gated(f),
            FfnType::NonGated => FfnStageView::NonGated(
                f,
                bias_of(weights.vectors@, crate::text::text_of(keys.up_bias)),
            ),
        },
        down_bias: bias_of(weights.vectors@, crate::text::text_of(keys.down_bias)),
    }
}

/// Works out a layer's computation.
pub fn ffn_math(weights: &FfnWeights, layer: usize) -> (math: FfnMath)
    requires
        layer < weights.layers.len(),
    ensures
        math@ == math_of(*weights, layer as int),
{
    let keys = &weights.layers[layer];
    let f: Nonlinearity = match weights.activation {
        Activation::GeluTanh | Activation::Gelu => Nonlinearity::GeluTanh,
        Activation::Other => Nonlinearity::Silu,
    };
    let stage: FfnStage = if weights.ffn_type == FfnType::Gated {
        FfnStage::Gated(f)
    } else {
        FfnStage::NonGated(f, weights.bias(&keys.up_bias))
    };
    FfnMath { stage, down_bias: weights.bias(&keys.down_bias) }
}

// ── Where matrices come from ────────────────────────────────────────────────

/// A table of matrices.
#[derive(PartialEq, Eq, Structural, Clone, Copy, Debug)]
pub enum TensorSource {
    /// Matrices that were dequantised for the layer at hand.
    Scratch,
    /// The model's own.
    Canonical,
}

/// A matrix and the table that it is taken from.
pub struct Operand {
    /// The matrix's name.
    pub key: String,
    /// Its table.
    pub source: TensorSource,
    /// Its shape.
    pub shape: Shape,
}

/// A model's weights, with a scratch table that is looked at first where there is one.
pub struct WeightsView<'a> {
    /// The model's weights.
    pub weights: &'a FfnWeights,
    /// Matrices that stand in for the model's own of the same name.
    pub scratch: Option<&'a Table<Shape>>,
}

/// What a view finds under a name: the scratch matrix, else the model's own.
pub open spec fn found(view: WeightsView<'_>, key: Seq<char>) -> Option<(TensorSource, Shape)> {
    if view.scratch is Some && view.scratch->0@.contains_key(key) {
        Some((TensorSource::Scratch, view.scratch->0@[key]))
    } else if view.weights.tensors@.contains_key(key) {
        Some((TensorSource::Canonical, view.weights.tensors@[key]))
    } else {
        None
    }
}

/// The shape of the matrix that a view finds under a name.
pub open spec fn shape_found(view: WeightsView<'_>, key: Seq<char>) -> Option<Shape> {
    match found(view, key) {
        Some((_, shape)) => Some(shape),
        None => None,
    }
}

/// Whether an operand is what a view finds under a name.
pub open spec fn is_found(operand: Operand, view: WeightsView<'_>, key: Seq<char>) -> bool {
    &&& operand.key@ == key
    &&& found(view, key) == Some((operand.source, operand.shape))
}

impl<'a> WeightsView<'a> {
    /// The model's own weights.
    pub fn dense(weights: &'a FfnWeights) -> (view: Self)
        ensures
            view.weights == weights,
            view.scratch is None,
    {
        WeightsView { weights, scratch: None }
    }

    /// The model's weights behind a scratch table.
    pub fn with_scratch(weights: &'a FfnWeights, scratch: &'a Table<Shape>) -> (view: Self)
        ensures
            view.weights == weights,
            view.scratch == Some(scratch),
    {
        WeightsView { weights, scratch: Some(scratch) }
    }

    /// Looks a matrix up.
    pub fn tensor(&self, key: &str) -> (operand: Option<Operand>)
        ensures
            match operand {
                Some(operand) => is_found(operand, *self, key@),
                None => found(*self, key@) is None,
            },
    {
        if let Some(scratch) = self.scratch {
            if let Some(shape) = scratch.get(key) {
                return Some(Operand { key: key.to_owned(), source: TensorSource::Scratch, shape });
            }
        }
        match self.weights.tensors.get(key) {
            Some(shape) => Some(
                Operand { key: key.to_owned(), source: TensorSource::Canonical, shape },
            ),
            None => None,
        }
    }
}

// ── Dense weights ───────────────────────────────────────────────────────────

/// Where products are computed.
#[derive(PartialEq, Eq, Structural, Clone, Copy, Debug)]
pub enum Route {
    /// On the arrays themselves.
    Local,
    /// By a compute backend.
    Backend,
}

/// What the message on a missing weight says first.
pub const COMPACT_HINT: &'static str =
    "FFN weight tensor missing — this is a `--compact` vindex. Use `WalkFfn` instead of `WeightFfn` for inference (or re-extract without `--compact` if you need dense matmul).";

/// A weight that the FFN needs and the model does not hold.
pub struct MissingTensor {
    /// The weight's name.
    pub key: String,
}

impl MissingTensor {
    /// The message: the hint, then the weight's name.
    pub fn message(&self) -> (text: String)
        ensures
            text@ == COMPACT_HINT@ + " (key: "@ + self.key@ + ")"@,
    {
        COMPACT_HINT.to_owned().concat(" (key: ").concat(self.key.as_str()).concat(")")
    }
}

/// A layer's FFN over dense matrices.
pub struct DenseFfn {
    /// The computation.
    pub math: FfnMath,
    /// Gate matrix, where the FFN is gated.
    pub gate: Option<Operand>,
    /// The up matrix.
    pub up: Operand,
    /// The down matrix.
    pub down: Operand,
    /// Where the products are computed.
    pub route: Route,
    /// Shape of the activation.
    pub activation: Shape,
    /// Shape of the output.
    pub output: Shape,
}

/// The first weight that a layer lacks, in the order up, down, gate.
pub open spec fn missing_of(view: WeightsView<'_>, layer: int) -> Option<Seq<char>> {
    let keys = view.weights.layers[layer];
    if found(view, keys.up@) is None {
        Some(keys.up@)
    } else if found(view, keys.down@) is None {
        Some(keys.down@)
    } else if view.weights.ffn_type == FfnType::Gated && found(view, keys.gate@) is None {
        Some(keys.gate@)
    } else {
        None
    }
}

/// Whether `ffn` is the FFN of a layer on input of shape `x`.
pub open spec fn is_dense_ffn(
    ffn: DenseFfn,
    view: WeightsView<'_>,
    layer: int,
    x: Shape,
    route: Route,
) -> bool {
    let keys = view.weights.layers[layer];
    &&& ffn.math@ == math_of(*view.weights, layer)
    &&& match ffn.gate {
        Some(gate) => view.weights.ffn_type == FfnType::Gated && is_found(gate, view, keys.gate@),
        None => view.weights.ffn_type == FfnType::NonGated,
    }
    &&& is_found(ffn.up, view, keys.up@)
    &&& is_found(ffn.down, view, keys.down@)
    &&& ffn.route == route
    &&& ffn.activation == (Shape { rows: x.rows, cols: ffn.up.shape.rows })
    &&& ffn.output == (Shape { rows: x.rows, cols: ffn.down.shape.rows })
}

/// Whether `plan` is what planning a layer gives: its FFN, or the first weight that it lacks.
pub open spec fn is_plan(
    plan: Result<DenseFfn, MissingTensor>,
    view: WeightsView<'_>,
    layer: int,
    x: Shape,
    route: Route,
) -> bool {
    match plan {
        Ok(ffn) => missing_of(view, layer) is None && is_dense_ffn(ffn, view, layer, x, route),
        Err(missing) => missing_of(view, layer) == Some(missing.key@),
    }
}

/// Plans a layer's FFN on input of shape `x`. The products go through the backend where there is
/// one. Each matrix is taken from the scratch table first.
pub fn dense_ffn_forward_backend(
    weights: &WeightsView<'_>,
    layer: usize,
    x: Shape,
    has_backend: bool,
) -> (plan: Result<DenseFfn, MissingTensor>)
    requires
        layer < weights.weights.layers.len(),
    ensures
        is_plan(
            plan,
            *weights,
            layer as int,
            x,
            if has_backend {
                Route::Backend
            } else {
                Route::Local
            },
        ),
{
    let keys = &weights.weights.layers[layer];
    let up: Operand = match weights.tensor(keys.up.as_str()) {
        Some(operand) => operand,
        None => {
            return Err(MissingTensor { key: keys.up.clone() });
        },
    };
    let down: Operand = match weights.tensor(keys.down.as_str()) {
        Some(operand) => operand,
        None => {
            return Err(MissingTensor { key: keys.down.clone() });
        },
    };
    let gate: Option<Operand> = if weights.weights.ffn_type == FfnType::Gated {
        match weights.tensor(keys.gate.as_str()) {
            Some(operand) => Some(operand),
            None => {
                return Err(MissingTensor { key: keys.gate.clone() });
            },
        }
    } else {
        None
    };
    let math: FfnMath = ffn_math(weights.weights, layer);
    let route: Route = if has_backend {
        Route::Backend
    } else {
        Route::Local
    };
    let activation: Shape = Shape { rows: x.rows, cols: up.shape.rows };
    let output: Shape = Shape { rows: x.rows, cols: down.shape.rows };
    Ok(DenseFfn { math, gate, up, down, route, activation, output })
}

/// Plans a layer's FFN on input of shape `x` without a backend.
pub fn dense_ffn_forward(weights: &WeightsView<'_>, layer: usize, x: Shape) -> (plan: Result<
    DenseFfn,
    MissingTensor,
>)
    requires
        layer < weights.weights.layers.len(),
    ensures
        is_plan(plan, *weights, layer as int, x, Route::Local),
{
    dense_ffn_forward_backend(weights, layer, x, false)
}

/// A backend changes where the products of an FFN are computed, and nothing else.
pub proof fn law_backend_changes_only_the_route(
    local: DenseFfn,
    routed: DenseFfn,
    view: WeightsView<'_>,
    layer: int,
    x: Shape,
)
    requires
        is_dense_ffn(local, view, layer, x, Route::Local),
        is_dense_ffn(routed, view, layer, x, Route::Backend),
    ensures
        routed.math@ == local.math@,
        local.gate is Some == routed.gate is Some,
        local.gate is Some ==> {
            &&& routed.gate->0.key@ == local.gate->0.key@
            &&& routed.gate->0.source == local.gate->0.source
            &&& routed.gate->0.shape == local.gate->0.shape
        },
        routed.up.key@ == local.up.key@,
        routed.up.source == local.up.source,
        routed.up.shape == local.up.shape,
        routed.down.key@ == local.down.key@,
        routed.down.source == local.down.source,
        routed.down.shape == local.down.shape,
        routed.activation == local.activation,
        routed.output == local.output,
{
}

/// Where the up matrix has a row per feature and the down matrix a row per hidden unit, every
/// input row gives one activation row over the features and one output row of the hidden size.
pub proof fn law_ffn_keeps_rows_and_hidden_size(
    ffn: DenseFfn,
    view: WeightsView<'_>,
    layer: int,
    x: Shape,
    route: Route,
    intermediate: usize,
)
    requires
        is_dense_ffn(ffn, view, layer, x, route),
        shape_found(view, view.weights.layers[layer].up@) == Some(
            Shape { rows: intermediate, cols: x.cols },
        ),
        shape_found(view, view.weights.layers[layer].down@) == Some(
            Shape { rows: x.cols, cols: intermediate },
        ),
    ensures
        ffn.output == x,
        ffn.activation == (Shape { rows: x.rows, cols: intermediate }),
{
}

/// A scratch matrix is taken in place of the model's own of the same name; the names that the
/// scratch table lacks are looked up as without it.
pub proof fn law_scratch_shadows_canonical(
    weights: &FfnWeights,
    scratch: &Table<Shape>,
    key: Seq<char>,
)
    ensures
        scratch@.contains_key(key) ==> found(
            (WeightsView { weights, scratch: Some(scratch) }),
            key,
        ) == Some((TensorSource::Scratch, scratch@[key])),
        !scratch@.contains_key(key) ==> found(
            (WeightsView { weights, scratch: Some(scratch) }),
            key,
        ) == found((WeightsView { weights, scratch: None }), key),
{
}

// ── FFNs ────────────────────────────────────────────────────────────────────

/// The FFN over a model's own dense weights.
pub struct WeightFfn<'a> {
    /// The model's weights.
    pub weights: &'a FfnWeights,
}

impl<'a> WeightFfn<'a> {
    /// Plans the output and the activation of a layer.
    pub fn forward_with_activation(&self, layer: usize, x: Shape) -> (plan: Result<
        DenseFfn,
        MissingTensor,
    >)
        requires
            layer < self.weights.layers.len(),
        ensures
            is_plan(
                plan,
                (WeightsView { weights: self.weights, scratch: None }),
                layer as int,
                x,
                Route::Local,
            ),
    {
        dense_ffn_forward(&WeightsView::dense(self.weights), layer, x)
    }

    /// The name of this FFN.
    pub fn name(&self) -> (name: &'static str)
        ensures
            name@ == "weights"@,
    {
        "weights"
    }
}

/// The FFN over a view, which sees a layer's dequantised matrices in the scratch table.
pub struct ViewFfn<'a> {
    /// The view.
    pub view: WeightsView<'a>,
}

impl<'a> ViewFfn<'a> {
    /// Plans the output and the activation of a layer.
    pub fn forward_with_activation(&self, layer: usize, x: Shape) -> (plan: Result<
        DenseFfn,
        MissingTensor,
    >)
        requires
            layer < self.view.weights.layers.len(),
        ensures
            is_plan(plan, self.view, layer as int, x, Route::Local),
    {
        dense_ffn_forward(&self.view, layer, x)
    }

    /// The name of this FFN.
    pub fn name(&self) -> (name: &'static str)
        ensures
            name@ == "view"@,
    {
        "view"
    }
}

/// The FFN over a model's own dense weights, with its products computed by a backend.
pub struct BackendFfn<'a, 'b, B> {
    /// The model's weights.
    pub weights: &'a FfnWeights,
    /// The backend.
    pub backend: &'b B,
}

impl<'a, 'b, B> BackendFfn<'a, 'b, B> {
    /// Plans the output and the activation of a layer.
    pub fn forward_with_activation(&self, layer: usize, x: Shape) -> (plan: Result<
        DenseFfn,
        MissingTensor,
    >)
        requires
            layer < self.weights.layers.len(),
        ensures
            is_plan(
                plan,
                (WeightsView { weights: self.weights, scratch: None }),
                layer as int,
                x,
                Route::Backend,
            ),
    {
        dense_ffn_forward_backend(&WeightsView::dense(self.weights), layer, x, true)
    }

    /// The name of this FFN.
    pub fn name(&self) -> (name: &'static str)
        ensures
            name@ == "weights+backend"@,
    {
        "weights+backend"
    }
}

/// An FFN that returns its input unchanged, for engines that consult none.
pub struct NullFfn;

impl NullFfn {
    /// The input.
    pub fn forward<T: Clone>(&self, _layer: usize, x: &T) -> (out: T)
        ensures
            cloned(*x, out),
    {
        x.clone()
    }

    /// The input, as the output and as the activation.
    pub fn forward_with_activation<T: Clone>(&self, _layer: usize, x: &T) -> (both: (T, T))
        ensures
            cloned(*x, both.0),
            cloned(*x, both.1),
    {
        (x.clone(), x.clone())
    }

    /// The name of this FFN.
    pub fn name(&self) -> (name: &'static str)
        ensures
            name@ == "null"@,
    {
        "null"
    }
}

/// A layer's mixture-of-experts block, as it is handed to the block's computation.
pub struct MoeBlock<'a, R, P> {
    /// The layer.
    pub layer: usize,
    /// The FFN of the dense contribution.
    pub dense: WeightFfn<'a>,
    /// Per-layer embedding input.
    pub ple_input: Option<P>,
    /// Where the experts are computed, if not here.
    pub remote: Option<&'a R>,
}

/// The FFN of a mixture-of-experts model whose experts are computed by remote shards.
///
/// The dense contribution reads `weights`, so its matrices must be there dequantised. Per-layer
/// embeddings are not applied on this path.
pub struct RemoteMoeFfn<'a, R> {
    /// The model's weights.
    pub weights: &'a FfnWeights,
    /// The remote shards.
    pub remote: &'a R,
}

impl<'a, R> RemoteMoeFfn<'a, R> {
    /// Plans the output and the activation of a layer without experts: the dense FFN.
    pub fn forward_with_activation(&self, layer: usize, x: Shape) -> (plan: Result<
        DenseFfn,
        MissingTensor,
    >)
        requires
            layer < self.weights.layers.len(),
        ensures
            is_plan(
                plan,
                (WeightsView { weights: self.weights, scratch: None }),
                layer as int,
                x,
                Route::Local,
            ),
    {
        WeightFfn { weights: self.weights }.forward_with_activation(layer, x)
    }

    /// The block of a layer with experts: the dense FFN here, the experts at the shards, and no
    /// per-layer embedding.
    pub fn forward_moe_full_layer<P>(&self, layer: usize) -> (block: Option<MoeBlock<'a, R, P>>)
        ensures
            block is Some,
            block->0.layer == layer,
            block->0.dense.weights == self.weights,
            block->0.ple_input is None,
            block->0.remote == Some(self.remote),
    {
        Some(
            MoeBlock {
                layer,
                dense: WeightFfn { weights: self.weights },
                ple_input: None,
                remote: Some(self.remote),
            },
        )
    }

    /// The name of this FFN.
    pub fn name(&self) -> (name: &'static str)
        ensures
            name@ == "remote-moe"@,
    {
        "remote-moe"
    }
}

// ── What a plan is, of the layer and its weights ────────────────────────────

/// A layer adds the biases that its own keys name, where the vectors of those names are there, and
/// no others. An up bias is added only without a gate.
pub proof fn law_layers_add_their_own_biases(weights: FfnWeights, layer: int, math: FfnMath)
    requires
        0 <= layer < weights.layers@.len(),
        math@ == math_of(weights, layer),
    ensures
        match weights.layers@[layer].down_bias {
            Some(name) => if weights.vectors@.contains_key(name@) {
                math.down_bias is Some && math.down_bias->0@ == name@
            } else {
                math.down_bias is None
            },
            None => math.down_bias is None,
        },
        weights.ffn_type == FfnType::NonGated ==> match (
            math.stage,
            weights.layers@[layer].up_bias,
        ) {
            (FfnStage::NonGated(_, added), Some(name)) => if weights.vectors@.contains_key(name@) {
                added is Some && added->0@ == name@
            } else {
                added is None
            },
            (FfnStage::NonGated(_, added), None) => added is None,
            _ => false,
        },
        weights.ffn_type == FfnType::Gated ==> math.stage is Gated,
{
}

/// The activation is the model's: GELU where it names GELU in either form, SiLU otherwise. It is
/// applied to gate values exactly where the FFN is gated.
pub proof fn law_activation_is_the_models(weights: FfnWeights, layer: int, math: FfnMath)
    requires
        math@ == math_of(weights, layer),
    ensures
        math.stage is Gated <==> weights.ffn_type == FfnType::Gated,
        match math.stage {
            FfnStage::Gated(f) => (f == Nonlinearity::GeluTanh <==> weights.activation
                != Activation::Other),
            FfnStage::NonGated(f, _) => (f == Nonlinearity::GeluTanh <==> weights.activation
                != Activation::Other),
        },
{
}

/// What is planned of a layer is its own computation.
pub proof fn law_plans_are_of_their_layer(
    plan: Result<DenseFfn, MissingTensor>,
    view: WeightsView<'_>,
    layer: int,
    x: Shape,
    route: Route,
)
    requires
        is_plan(plan, view, layer, x, route),
    ensures
        plan matches Ok(ffn) ==> ffn.math@ == math_of(*view.weights, layer) && ffn.route == route,
{
}

/// A plan takes the matrices that the layer's own keys name: up and down always, gate values
/// exactly where the FFN is gated.
pub proof fn law_plans_take_the_layers_matrices(
    ffn: DenseFfn,
    view: WeightsView<'_>,
    layer: int,
    x: Shape,
    route: Route,
)
    requires
        0 <= layer < view.weights.layers@.len(),
        is_plan(Ok(ffn), view, layer, x, route),
    ensures
        ffn.up.key@ == view.weights.layers@[layer].up@,
        ffn.down.key@ == view.weights.layers@[layer].down@,
        ffn.gate is Some <==> view.weights.ffn_type == FfnType::Gated,
        ffn.gate is Some ==> ffn.gate->0.key@ == view.weights.layers@[layer].gate@,
        taken_from_first_table(ffn.up, view),
        taken_from_first_table(ffn.down, view),
        ffn.gate is Some ==> taken_from_first_table(ffn.gate->0, view),
        ffn.activation.rows == x.rows,
        ffn.activation.cols == ffn.up.shape.rows,
        ffn.output.rows == x.rows,
        ffn.output.cols == ffn.down.shape.rows,
{
}

/// A matrix is the scratch table's where that holds its name, with the shape given there; else the
/// model's own, with the shape given there.
pub open spec fn taken_from_first_table(operand: Operand, view: WeightsView<'_>) -> bool {
    if view.scratch is Some && view.scratch->0@.contains_key(operand.key@) {
        operand.source == TensorSource::Scratch && operand.shape
            == view.scratch->0@[operand.key@]
    } else {
        &&& view.weights.tensors@.contains_key(operand.key@)
        &&& operand.source == TensorSource::Canonical
        &&& operand.shape == view.weights.tensors@[operand.key@]
    }
}

/// A matrix of that name is in the scratch table or the model's own.
pub open spec fn is_held(view: WeightsView<'_>, key: Seq<char>) -> bool {
    (view.scratch is Some && view.scratch->0@.contains_key(key))
        || view.weights.tensors@.contains_key(key)
}

/// Planning fails exactly where a matrix that the layer needs is in no table, and names it: up
/// before down, and down before gate values, which only a gated FFN needs.
pub proof fn law_plans_fail_where_a_matrix_is_missing(
    plan: Result<DenseFfn, MissingTensor>,
    view: WeightsView<'_>,
    layer: int,
    x: Shape,
    route: Route,
)
    requires
        0 <= layer < view.weights.layers@.len(),
        is_plan(plan, view, layer, x, route),
    ensures
        plan is Ok <==> is_held(view, view.weights.layers@[layer].up@) && is_held(
            view,
            view.weights.layers@[layer].down@,
        ) && (view.weights.ffn_type == FfnType::Gated ==> is_held(
            view,
            view.weights.layers@[layer].gate@,
        )),
        plan matches Err(missing) ==> !is_held(view, missing.key@) && missing.key@ == if !is_held(
            view,
            view.weights.layers@[layer].up@,
        ) {
            view.weights.layers@[layer].up@
        } else if !is_held(view, view.weights.layers@[layer].down@) {
            view.weights.layers@[layer].down@
        } else {
            view.weights.layers@[layer].gate@
        },
{
}

} // verus!
