//! Whether, from where and how an extraction writes the model's weights.

use vstd::prelude::*;

use crate::error::VindexError;

verus! {

/// How weights are stored in an index.
#[derive(PartialEq, Eq, Structural, Clone, Copy, Debug)]
pub enum QuantFormat {
    /// As they are.
    Unquantised,
    /// Quantised to Q4_K.
    Q4K,
}

/// Options of the plain writer: the extract level, and whatever else it takes.
pub struct WeightOptions<L, R> {
    /// Which sections are written.
    pub level: L,
    /// The other options.
    pub rest: R,
}

/// Where the weights come from.
#[derive(PartialEq, Eq, Structural, Clone, Copy, Debug)]
pub enum WeightSource {
    /// A GGUF file.
    Gguf,
    /// Safetensors shards.
    Safetensors,
}

/// What is to be written.
pub enum WeightWrite<L, R, Q> {
    /// Nothing: the level asks for no weights.
    Skip,
    /// The weights as they are.
    Plain {
        /// Where they come from.
        source: WeightSource,
        /// Options of the writer.
        options: WeightOptions<L, R>,
    },
    /// The weights quantised.
    Quantised {
        /// Where they come from.
        source: WeightSource,
        /// Options of the quantising writer.
        q4k_options: Q,
    },
}

/// What the weights stage of a streaming extraction looks at. `L` is the extract level, `R` and
/// `Q` are options that are passed on.
pub struct StreamingContext<L, R, Q> {
    /// How much is extracted.
    pub extract_level: L,
    /// Whether that level has attention weights written.
    pub level_writes_attn: bool,
    /// How weights are stored.
    pub quant: QuantFormat,
    /// Options for the plain writer.
    pub weight_opts: WeightOptions<L, R>,
    /// Options for the quantising writer.
    pub q4k_opts: Q,
    /// The input is a GGUF file.
    pub has_gguf: bool,
    /// The input's safetensors shards are mapped.
    pub has_shards: bool,
    /// The input's safetensors index is loaded.
    pub has_tensor_index: bool,
}

impl<L, R, Q> StreamingContext<L, R, Q> {
    /// Weights are written for a level with attention, and for every level when quantised.
    pub open spec fn needs_weights(&self) -> bool {
        self.level_writes_attn || self.quant != QuantFormat::Unquantised
    }

    /// The input that weights can be read from; GGUF goes first.
    pub open spec fn source(&self) -> Option<WeightSource> {
        if self.has_gguf {
            Some(WeightSource::Gguf)
        } else if self.has_shards && self.has_tensor_index {
            Some(WeightSource::Safetensors)
        } else {
            None
        }
    }
}

impl<L, R, Q> StreamingContext<L, R, Q> {
    /// Whether `write` is what the stage writes.
    pub open spec fn decides(&self, write: Result<WeightWrite<L, R, Q>, VindexError>) -> bool {
        match write {
            Ok(WeightWrite::Skip) => !self.needs_weights(),
            Ok(WeightWrite::Plain { source, options }) => {
                &&& self.needs_weights()
                &&& self.quant == QuantFormat::Unquantised
                &&& self.source() == Some(source)
                &&& options.level == self.extract_level
                &&& options.rest == self.weight_opts.rest
            },
            Ok(WeightWrite::Quantised { source, q4k_options }) => {
                &&& self.quant == QuantFormat::Q4K
                &&& self.source() == Some(source)
                &&& q4k_options == self.q4k_opts
            },
            Err(VindexError::Parse(text)) => {
                &&& self.needs_weights()
                &&& self.source() is None
                &&& text@
                    == "neither safetensors nor GGUF tensors available for weight writing"@
            },
        }
    }
}

impl<L: Copy, R: Copy, Q: Copy> StreamingContext<L, R, Q> {
    /// Decides what the weights stage writes. The plain writer gets the extract level in its
    /// options, so that it can leave out what the level does not ask for.
    pub fn maybe_write_model_weights(&self) -> (write: Result<WeightWrite<L, R, Q>, VindexError>)
        ensures
            self.decides(write),
    {
        let needs_weights: bool = self.level_writes_attn || self.quant != QuantFormat::Unquantised;
        if !needs_weights {
            return Ok(WeightWrite::Skip);
        }
        let level_opts: WeightOptions<L, R> = WeightOptions {
            level: self.extract_level,
            rest: self.weight_opts.rest,
        };

        let source: WeightSource = if self.has_gguf {
            WeightSource::Gguf
        } else if self.has_shards && self.has_tensor_index {
            WeightSource::Safetensors
        } else {
            return Err(
                VindexError::Parse(
                    "neither safetensors nor GGUF tensors available for weight writing".to_owned(),
                ),
            );
        };
        match self.quant {
            QuantFormat::Unquantised => Ok(WeightWrite::Plain { source, options: level_opts }),
            QuantFormat::Q4K => Ok(WeightWrite::Quantised { source, q4k_options: self.q4k_opts }),
        }
    }
}

/// Quantised weights are written whatever the level: quantising promotes every level.
pub proof fn law_quantising_promotes_every_level<L, R, Q>(context: StreamingContext<L, R, Q>)
    requires
        context.quant == QuantFormat::Q4K,
    ensures
        context.needs_weights(),
{
}

/// Weights are needed exactly where the level has attention written or they are quantised. Nothing
/// is written where they are not needed, and the stage fails exactly where they are needed and
/// there is neither a GGUF file nor both shards and index.
pub proof fn law_weights_are_written_where_needed<L, R, Q>(
    context: StreamingContext<L, R, Q>,
    write: Result<WeightWrite<L, R, Q>, VindexError>,
)
    requires
        context.decides(write),
    ensures
        write matches Ok(WeightWrite::Skip) <==> !context.level_writes_attn && context.quant
            == QuantFormat::Unquantised,
        write is Err <==> (context.level_writes_attn || context.quant == QuantFormat::Q4K)
            && !context.has_gguf && !(context.has_shards && context.has_tensor_index),
        write matches Err(VindexError::Parse(text)) ==> text@
            == "neither safetensors nor GGUF tensors available for weight writing"@,
{
}

/// What is written comes from the GGUF file where there is one, whatever the quantisation and
/// whatever else there is; else from the safetensors shards.
pub proof fn law_gguf_goes_first<L, R, Q>(
    context: StreamingContext<L, R, Q>,
    write: Result<WeightWrite<L, R, Q>, VindexError>,
)
    requires
        context.decides(write),
        context.level_writes_attn || context.quant == QuantFormat::Q4K,
        context.has_gguf || (context.has_shards && context.has_tensor_index),
    ensures
        match write {
            Ok(WeightWrite::Plain { source, .. }) => source == if context.has_gguf {
                WeightSource::Gguf
            } else {
                WeightSource::Safetensors
            },
            Ok(WeightWrite::Quantised { source, .. }) => source == if context.has_gguf {
                WeightSource::Gguf
            } else {
                WeightSource::Safetensors
            },
            _ => false,
        },
{
}

/// Quantised weights are written with the quantising writer's options, and plain ones with the
/// plain writer's, of which the level is the extract level.
pub proof fn law_writers_get_their_options<L, R, Q>(
    context: StreamingContext<L, R, Q>,
    write: Result<WeightWrite<L, R, Q>, VindexError>,
)
    requires
        context.decides(write),
    ensures
        write matches Ok(WeightWrite::Plain { options, .. }) ==> context.quant
            == QuantFormat::Unquantised && options.level == context.extract_level && options.rest
            == context.weight_opts.rest,
        write matches Ok(WeightWrite::Quantised { q4k_options, .. }) ==> context.quant
            == QuantFormat::Q4K && q4k_options == context.q4k_opts,
{
}

} // verus!
