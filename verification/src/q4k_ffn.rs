//! The FFN on Q4_K bytes, without dequantising them.
//!
//! The computation is that of the dense FFN; only the matrices differ. A Q4_K row holds whole
//! blocks, so the down matrix may be wider than the activation, whose rows are then filled up with
//! zeros.

use vstd::prelude::*;

use crate::ffn::{ffn_math, DenseFfn, FfnMath, FfnWeights, Route, Shape, WeightsView};

verus! {

/// Values in a Q4_K block.
pub const Q4K_BLOCK_VALUES: usize = 256;

/// Bytes of a Q4_K block.
pub const Q4K_BLOCK_BYTES: usize = 144;

/// Place of gate bytes among the interleaved slices of a layer.
pub const GATE_SLICE: usize = 0;

/// Place of the up bytes among the interleaved slices of a layer.
pub const UP_SLICE: usize = 1;

/// Place of the down bytes among the interleaved slices of a layer.
pub const DOWN_SLICE: usize = 2;

/// What the index holds of a layer's FFN.
#[derive(Clone, Copy, Debug)]
pub struct Q4kLayer {
    /// Number of features.
    pub features: usize,
    /// Length in bytes of the down matrix, where the layer's Q4_K bytes are there.
    pub down_bytes: Option<usize>,
}

/// The width of a down matrix with `hidden` rows that takes `down_bytes` bytes.
pub open spec fn down_width(down_bytes: int, hidden: int) -> int {
    down_bytes / hidden / (Q4K_BLOCK_BYTES as int) * Q4K_BLOCK_VALUES
}

/// Row `s` of a matrix whose rows of `width` values are stored one after the other.
pub open spec fn row<T>(data: Seq<T>, width: int, s: int) -> Seq<T> {
    data.subrange(s * width, (s + 1) * width)
}

/// `count` times the same value.
pub open spec fn repeated<T>(value: T, count: int) -> Seq<T> {
    Seq::new(count as nat, |i: int| value)
}

/// The rows before row `s` do not change when values are added behind them.
proof fn lemma_rows_stay<T>(data: Seq<T>, added: Seq<T>, width: int, s: int, count: int)
    requires
        0 <= s < count,
        0 <= width,
        data.len() == count * width,
    ensures
        row(data + added, width, s) == row(data, width, s),
{
    assert(0 <= s * width <= (s + 1) * width <= count * width) by (nonlinear_arith)
        requires
            0 <= s < count,
            0 <= width,
    ;
    assert(row(data + added, width, s) =~= row(data, width, s));
}

/// Fills every row of `data` up with `zero` from `from` values to `to`.
pub fn pad_rows<T: Copy>(data: &Vec<T>, count: usize, from: usize, to: usize, zero: T) -> (padded:
    Vec<T>)
    requires
        data.len() == count * from,
        count == 0 || from <= to,
        count * to <= usize::MAX,
    ensures
        padded.len() == count * to,
        forall|s: int|
            0 <= s < count ==> #[trigger] row(padded@, to as int, s) == row(data@, from as int, s)
                + repeated(zero, to - from),
{
    let mut padded: Vec<T> = Vec::new();
    let mut s: usize = 0;
    assert(0 * to == 0) by (nonlinear_arith);
    while s < count
        invariant
            s <= count,
            data.len() == count * from,
            count == 0 || from <= to,
            padded.len() == s * to,
            forall|t: int|
                0 <= t < s ==> #[trigger] row(padded@, to as int, t) == row(data@, from as int, t)
                    + repeated(zero, to - from),
        decreases count - s,
    {
        let ghost before = padded@;
        assert(0 <= s * from && (s + 1) * from == s * from + from && (s + 1) * from <= count * from)
            by (nonlinear_arith)
            requires
                0 <= s < count,
                0 <= from,
        ;
        assert((s + 1) * to == s * to + to) by (nonlinear_arith);
        let start: usize = s * from;
        let ghost source = row(data@, from as int, s as int);
        let mut i: usize = 0;
        while i < from
            invariant
                i <= from,
                start + from <= data.len(),
                source == data@.subrange(start as int, start + from),
                padded@ == before + source.take(i as int),
            decreases from - i,
        {
            padded.push(data[start + i]);
            i = i + 1;
            assert(padded@ =~= before + source.take(i as int));
        }
        assert(source.take(from as int) =~= source);
        while i < to
            invariant
                from <= i <= to,
                padded@ == before + (source + repeated(zero, i - from)),
            decreases to - i,
        {
            padded.push(zero);
            i = i + 1;
            assert(padded@ =~= before + (source + repeated(zero, i - from)));
        }
        let ghost added = source + repeated(zero, to - from);
        assert(row(padded@, to as int, s as int) =~= added);
        assert forall|t: int| 0 <= t < s implies #[trigger] row(padded@, to as int, t) == row(
            data@,
            from as int,
            t,
        ) + repeated(zero, to - from) by {
            lemma_rows_stay(before, added, to as int, t, s as int);
        }
        s = s + 1;
    }
    padded
}

/// A layer's FFN over Q4_K matrices.
pub struct Q4kFfn {
    /// The computation.
    pub math: FfnMath,
    /// Which of the layer's byte slices is the matrix of gate values, read where the FFN is gated.
    pub gate_slice: usize,
    /// Which of the layer's byte slices is the up matrix.
    pub up_slice: usize,
    /// Which of the layer's byte slices is the down matrix.
    pub down_slice: usize,
    /// Shape of up and gate matrices.
    pub projection: Shape,
    /// Shape of the down matrix.
    pub down: Shape,
    /// Whether the activation's rows are to be filled up to the width of the down matrix.
    pub pads: bool,
    /// Shape of the activation.
    pub activation: Shape,
    /// Shape of the output.
    pub output: Shape,
}

/// Whether `ffn` is the FFN of a layer on input of shape `x`, of which the index holds `entry`.
pub open spec fn is_q4k_ffn(
    ffn: Q4kFfn,
    weights: FfnWeights,
    entry: Q4kLayer,
    layer: int,
    x: Shape,
) -> bool {
    &&& ffn.math@ == crate::ffn::math_of(weights, layer)
    &&& ffn.gate_slice == GATE_SLICE
    &&& ffn.up_slice == UP_SLICE
    &&& ffn.down_slice == DOWN_SLICE
    &&& ffn.projection == (Shape { rows: entry.features, cols: x.cols })
    &&& ffn.down.rows == x.cols
    &&& ffn.down.cols == down_width(entry.down_bytes->0 as int, x.cols as int)
    &&& ffn.pads == (ffn.down.cols != entry.features)
    &&& ffn.activation == (Shape { rows: x.rows, cols: entry.features })
    &&& ffn.output == x
}

/// The FFN over a model's Q4_K bytes.
pub struct Q4kMatmulFfn<'a> {
    /// The model's weights, of which the biases are read.
    pub weights: &'a FfnWeights,
    /// What the index holds of each layer.
    pub index: &'a Vec<Q4kLayer>,
}

impl<'a> Q4kMatmulFfn<'a> {
    /// Plans the output and the activation of a layer. The layer's Q4_K bytes must be there, and
    /// its down matrix at least as wide as the activation.
    pub fn forward_with_activation(&self, layer: usize, x: Shape) -> (ffn: Q4kFfn)
        requires
            layer < self.weights.layers.len(),
            layer < self.index.len(),
            self.index[layer as int].down_bytes is Some,
            x.cols > 0,
            ({
                let width = down_width(
                    self.index[layer as int].down_bytes->0 as int,
                    x.cols as int,
                );
                &&& width <= usize::MAX
                &&& x.rows == 0 || self.index[layer as int].features <= width
                &&& x.rows * width <= usize::MAX
            }),
        ensures
            is_q4k_ffn(ffn, *self.weights, self.index[layer as int], layer as int, x),
    {
        let entry: Q4kLayer = self.index[layer];
        let down_bytes: usize = entry.down_bytes.unwrap();
        let down_cols: usize = down_bytes / x.cols / Q4K_BLOCK_BYTES * Q4K_BLOCK_VALUES;
        Q4kFfn {
            math: ffn_math(self.weights, layer),
            gate_slice: GATE_SLICE,
            up_slice: UP_SLICE,
            down_slice: DOWN_SLICE,
            projection: Shape { rows: entry.features, cols: x.cols },
            down: Shape { rows: x.cols, cols: down_cols },
            pads: down_cols != entry.features,
            activation: Shape { rows: x.rows, cols: entry.features },
            output: Shape { rows: x.rows, cols: x.cols },
        }
    }

    /// The name of this FFN.
    pub fn name(&self) -> (name: &'static str)
        ensures
            name@ == "q4k-matmul"@,
    {
        "q4k-matmul"
    }
}

/// The width that is computed from the length of a down matrix is the width that it was stored
/// with, in whole blocks.
pub proof fn law_down_width_is_the_stored_width(hidden: int, blocks: int)
    requires
        0 < hidden,
        0 <= blocks,
    ensures
        down_width(hidden * (blocks * Q4K_BLOCK_BYTES), hidden) == blocks * Q4K_BLOCK_VALUES,
{
    vstd::arithmetic::div_mod::lemma_div_multiples_vanish(blocks * Q4K_BLOCK_BYTES, hidden);
    assert(blocks * 144 / 144 == blocks);
}

/// Over the same weights and matrices of the same shapes, the Q4_K FFN and the dense FFN do the
/// same computation, and give an activation and an output of the same shapes.
pub proof fn law_q4k_computes_what_dense_does(
    q4k: Q4kFfn,
    dense: DenseFfn,
    view: WeightsView<'_>,
    entry: Q4kLayer,
    layer: int,
    x: Shape,
    route: Route,
)
    requires
        is_q4k_ffn(q4k, *view.weights, entry, layer, x),
        crate::ffn::is_dense_ffn(dense, view, layer, x, route),
        dense.up.shape == q4k.projection,
        dense.down.shape.rows == q4k.down.rows,
    ensures
        q4k.math@ == dense.math@,
        q4k.activation == dense.activation,
        q4k.output == dense.output,
{
}

/// A Q4_K plan has the sizes of its layer: the projections a row per feature and a column per input
/// column, the down matrix a row per input column and the width that its bytes give it, the
/// activation a column per feature, and an output of the input's shape. The bytes are the layer's
/// first, second and third slice.
pub proof fn law_q4k_plans_have_the_layers_sizes(
    ffn: Q4kFfn,
    weights: FfnWeights,
    entry: Q4kLayer,
    layer: int,
    x: Shape,
)
    requires
        is_q4k_ffn(ffn, weights, entry, layer, x),
    ensures
        ffn.math@ == crate::ffn::math_of(weights, layer),
        ffn.gate_slice == 0,
        ffn.up_slice == 1,
        ffn.down_slice == 2,
        ffn.projection.rows == entry.features,
        ffn.projection.cols == x.cols,
        ffn.down.rows == x.cols,
        entry.down_bytes matches Some(bytes) ==> ffn.down.cols == down_width(
            bytes as int,
            x.cols as int,
        ),
        ffn.activation.rows == x.rows,
        ffn.activation.cols == entry.features,
        ffn.output.rows == x.rows,
        ffn.output.cols == x.cols,
        ffn.pads <==> ffn.down.cols != entry.features,
{
}

/// A down matrix is as many whole blocks wide as its bytes give to each of its rows, and not one
/// more.
pub proof fn law_down_width_is_the_widest_that_fits(down_bytes: int, hidden: int)
    requires
        0 <= down_bytes,
        0 < hidden,
    ensures
        down_width(down_bytes, hidden) % 256 == 0,
        hidden * (down_width(down_bytes, hidden) / 256 * 144) <= down_bytes,
        down_bytes < hidden * ((down_width(down_bytes, hidden) / 256 + 1) * 144),
{
    let per_row = down_bytes / hidden;
    let blocks = per_row / 144;
    assert(down_width(down_bytes, hidden) == blocks * 256);
    assert(blocks * 144 <= per_row < (blocks + 1) * 144);
    vstd::arithmetic::div_mod::lemma_fundamental_div_mod(down_bytes, hidden);
    vstd::arithmetic::div_mod::lemma_mod_bound(down_bytes, hidden);
    assert(hidden * (blocks * 144) <= hidden * per_row) by (nonlinear_arith)
        requires
            blocks * 144 <= per_row,
            0 < hidden,
    ;
    assert(hidden * (per_row + 1) <= hidden * ((blocks + 1) * 144)) by (nonlinear_arith)
        requires
            per_row + 1 <= (blocks + 1) * 144,
            0 < hidden,
    ;
    assert(hidden * (per_row + 1) == hidden * per_row + hidden) by (nonlinear_arith);
}

/// Padding keeps every value in its row and column, and fills the further columns with zeros.
pub proof fn law_padding_keeps_values_in_place<T>(
    padded: Seq<T>,
    data: Seq<T>,
    count: int,
    from: int,
    to: int,
    zero: T,
    s: int,
    c: int,
)
    requires
        0 <= from <= to,
        0 <= s < count,
        0 <= c < to,
        data.len() == count * from,
        padded.len() == count * to,
        forall|t: int|
            0 <= t < count ==> #[trigger] row(padded, to, t) == row(data, from, t) + repeated(
                zero,
                to - from,
            ),
    ensures
        padded[s * to + c] == if c < from {
            data[s * from + c]
        } else {
            zero
        },
{
    assert(row(padded, to, s) == row(data, from, s) + repeated(zero, to - from));
    assert(0 <= s * to && (s + 1) * to == s * to + to && (s + 1) * to <= count * to)
        by (nonlinear_arith)
        requires
            0 <= s < count,
            0 <= to,
    ;
    assert(0 <= s * from && (s + 1) * from == s * from + from && (s + 1) * from <= count * from)
        by (nonlinear_arith)
        requires
            0 <= s < count,
            0 <= from,
    ;
    assert(row(padded, to, s)[c] == padded[s * to + c]);
    if c < from {
        assert(row(data, from, s)[c] == data[s * from + c]);
    }
}

} // verus!
