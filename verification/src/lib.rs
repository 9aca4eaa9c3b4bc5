//! Compact storage of embedding vectors.
//!
//! Vectors of single-precision numbers are stored as one byte per coordinate, between bounds
//! that a [`Quantizer`] keeps for every dimension. A file is a header of 32 bytes, the bounds,
//! the data block, and a footer with row identifiers and a SHA-256 checksum, all in big-endian
//! order; vector `i` is fetched with one read at a computed position.
//!
//! The library decides which bytes go where and what they mean. It performs no input or output:
//! reading and writing are sessions that say which bytes to fetch next, and every operation on
//! files has a form that works on bytes held in memory. Floating-point arithmetic is handed in
//! as an [`Arithmetic`] (single precision) or a [`WideArithmetic`] (double precision), and the
//! writing and reading of numbers as [`Numerals`].

pub mod aligned;
pub mod batch;
pub mod bins;
pub mod bytes;
pub mod cache;
pub mod cli;
pub mod config;
pub mod dataset;
pub mod determined;
pub mod distance;
pub mod errors;
pub mod export;
pub mod header;
pub mod index;
pub mod metrics;
pub mod numerals;
pub mod ops;
pub mod pipeline;
pub mod plan;
pub mod quant;
pub mod ranking;
pub mod rounding;
pub mod scalar;
pub mod search;
pub mod server;
pub mod sha;
pub mod stats;
pub mod storage;
pub mod text;
pub mod transform;
pub mod validate;
pub mod wide;

pub use aligned::{
    AlignedBuffer, BlockAlignedBuffer, CacheAlignedBuffer, CACHE_LINE, DISK_BLOCK,
};
pub use batch::{parallel_batch_search, parallel_calibrate, BatchWriter, ChunkedReader};
pub use cache::{CachedReader, LruCache};
pub use config::{CompactConfig, ConfigBuilder, ReaderConfig, WriterConfig};
pub use config::{VERSION_MAJOR, VERSION_MINOR};
pub use dataset::{format_vector, Dataset};
pub use distance::{
    cosine_distance, cosine_similarity, dot, inner_product_distance, l2, l2_squared,
};
pub use errors::{CompactError, Result};
pub use header::{Header, DISK_BLOCK_SIZE, HEADER_SIZE, MAGIC};
pub use metrics::{evaluate_search, mrr, recall_precision_at_k, SearchMetrics};
pub use numerals::Numerals;
pub use ops::{l2_norm, mean as vec_mean, scale as vec_scale};
pub use quant::{DistanceMetric, QuantType, Quantizer};
pub use scalar::{Arithmetic, Scalar};
pub use search::{brute_force_search, parallel_search, SearchResult};
pub use sha::{sha256, Sha256};
pub use stats::{evaluate as evaluate_quantization, QuantizationReport};
pub use storage::{CompactReader, CompactWriter, CHECKSUM_SIZE};
pub use transform::{
    transform_dataset, Centering, Chain, Identity, Normalizer, Standardizer, Transform,
};
pub use validate::{quick_check, validate, ValidationReport};
pub use wide::{Wide, WideArithmetic};
