//! The completion engine over a pretrained language model: tokenization,
//! context and memory, prefix-constrained search and cache bookkeeping. The
//! model itself, which computes in floating point, stays outside.

pub mod bpe;
pub mod byte_level;
pub mod completion;
pub mod context;
pub mod decoder;
pub mod expansion_law;
pub mod kv_session;
pub mod memory;
pub mod path_map;
pub mod pre_tokens;
pub mod progress_law;
pub mod ranking;
pub mod search;
pub mod search_law;
pub mod tables_law;
pub mod token_index;
pub mod token_tables;
pub mod tokenizer;
pub mod tokenizer_law;
pub mod window_law;
