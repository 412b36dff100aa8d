//! Byte-pair-encoding vocabulary training.
//!
//! The crate learns a BPE vocabulary from token corpora: it counts adjacent
//! token pairs, selects the most frequent non-conflicting pairs each round,
//! folds every selected pair into a fresh vocabulary entry, and re-tokenizes
//! the corpus with the new rules only.

pub mod bpe_state;
pub mod config;
pub mod count;
pub mod dataset;
pub mod histogram;
pub mod shard;
pub mod token;

pub use bpe_state::{render_line, BpeState, LoadError, RemoveError};
pub use config::{EtaScheduler, ForbiddenPatterns, TrainConfig, TrainResult, SCALE};
pub use count::Count;
pub use dataset::{DatasetIterator, InMemoryDataset, InMemoryDatasetIter};
pub use histogram::TokenHistogram;
pub use shard::{decode_shard, encode_shard, split_on_byte};
pub use token::{MergeRule, Token, Tokenizer};
