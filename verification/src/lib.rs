//! Decision logic of a transformer inference stack.
//!
//! The library works on plain values. Single-precision numbers are bit patterns, times are
//! nanoseconds, the environment is a value, and large arrays are known by their names and shapes.
//! What touches the outside world, or computes on floating-point arrays, is the caller's: the
//! functions here take what it observed and say what it has to do.
//!
//! - [`options`], [`env`], [`decode_stages`] and [`debug`] read switches from the environment.
//! - [`ffn`] and [`q4k_ffn`] plan a layer's feed-forward block.
//! - [`down_meta`] names features by their strongest tokens, with [`top_k`], [`archive`], [`header`],
//!   [`text`], [`lists`] and [`float_bits`] as its parts.
//! - [`model_weights`] decides what an extraction writes of the weights.
//! - [`rebalancer`] keeps the replicas of a grid of servers in balance.
//! - [`boundary_dispatch`] keeps account of the residual rows of a decode on a backend.

pub mod archive;
pub mod boundary_dispatch;
pub mod debug;
pub mod decode_stages;
pub mod down_meta;
pub mod env;
pub mod error;
pub mod ffn;
pub mod float_bits;
pub mod header;
pub mod lists;
pub mod model_weights;
pub mod options;
pub mod q4k_ffn;
pub mod rebalancer;
pub mod text;
pub mod top_k;
