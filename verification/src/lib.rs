//! The discrete core of a vector quantization engine.
//!
//! A quantizer turns vectors into short codes; a container keeps the codes
//! of all vectors of an index; a query is scored against the codes through
//! a lookup table; the scored candidates leave a reranker nearest first.
//!
//! Vector components are carried as IEEE-754 single-precision bit patterns
//! and compared by the IEEE total order; distances are fixed-point
//! integers. Floating-point arithmetic is never performed here: callers hand
//! it in as closures, and every contract says what is done with their
//! results.
//!
//! - [`scalar`]: vector components and their order.
//! - [`options`]: what an index is created with.
//! - [`quantizer`]: the four quantizers and their training.
//! - [`packing`]: narrow codes packed into bytes.
//! - [`fast_scan`]: four-bit codes in blocks of 32 vectors.
//! - [`lookup`]: lookup tables and the distances they give.
//! - [`container`]: the container and its three artifacts.
//! - [`preprocessed`]: prepared queries.
//! - [`query`]: preparing queries and scoring vectors.
//! - [`heap`]: the candidate heap, and the heap that keeps the nearest.
//! - [`reranker`]: rerankers.

pub mod container;
pub mod fast_scan;
pub mod heap;
pub mod lookup;
pub mod options;
pub mod packing;
pub mod preprocessed;
pub mod quantizer;
pub mod query;
pub mod reranker;
pub mod scalar;
pub mod views;

pub use container::Quantization;
pub use preprocessed::QuantizationPreprocessed;
pub use quantizer::Quantizer;
