//! Fraud scoring by nearest-neighbour search over an inverted-file index.

pub mod balance;
pub mod blob;
pub mod bytes;
pub mod config;
pub mod consts;
pub mod document;
pub mod duplicates;
pub mod http;
pub mod index;
pub mod kmeans;
pub mod neighbors;
pub mod probe;
pub mod refs;
pub mod reorder;
pub mod score;
pub mod stats;
pub mod sums;
pub mod text;
pub mod timeutil;
pub mod vectorize;
