//! Inference of per-cell chromatin states from co-assayed single-cell
//! fragments: the bookkeeping around a fixed hidden Markov model.
//!
//! The crate holds everything that is decided on integers, bytes and text:
//! the record containers, the grammar of the input lines, the redistribution
//! of fragments onto common cells, the binning of a chromosome and the
//! overlap queries, the layout of the model's tables, the filter on posterior
//! entries, the binary formats and the hand-over protocol of the worker pool.
//! Numbers that stand for probabilities are carried through as values of a
//! type parameter, or as integers that order them; the crate never computes
//! with them.
pub mod anchors;
pub mod bins;
pub mod codec;
pub mod fragment;
pub mod model;
pub mod model_file;
pub mod names;
pub mod overlap;
pub mod pool;
pub mod posterior;
pub mod record;
pub mod scheduler;
pub mod text;
