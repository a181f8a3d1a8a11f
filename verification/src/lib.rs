//! Desktop input routing and inline text prediction, with every rule stated as
//! a contract.

pub mod apple;
pub mod bytes;
pub mod desktop;
pub mod engine;
pub mod ngram;
pub mod patterns;
pub mod prose;
pub mod prose_law;
pub mod prose_mask_law;
pub mod smollm;
pub mod strings;
pub mod strings_law;
pub mod unicode;
