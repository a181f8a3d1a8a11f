//! The n-gram engine: word ids, counts by id, and the bytes they are stored in.

pub mod probe;
pub mod structures;
pub mod max_tree;
pub mod ranges;
pub mod order;
pub mod vocab;
pub mod compress;
pub mod web;
pub mod web_law;
pub mod hygiene;
pub mod text;
pub mod context_law;
pub mod session;
pub mod lexicon;
pub mod spelling_law;
pub mod merge;
pub mod counts;
pub mod learning;
pub mod learning_law;
pub mod vocabulary_law;
pub mod model;
pub mod suffix;
pub mod query;
pub mod candidates;
pub mod ranking;
pub mod evidence_law;
pub mod gathering_law;
pub mod row_law;
pub mod recall_law;
pub mod snapshot_format;
pub mod snapshot_records;
pub mod snapshot_bytes;
pub mod snapshot_image;
pub mod restore;
pub mod snapshot;
pub mod snapshot_law;
pub mod cache;
pub mod follower_table;
pub mod pair_table;
pub mod tail_table;
