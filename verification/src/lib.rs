//! Conversion of prefix-compressed Merkle authentication multi-proofs into
//! compact, flag-driven multi-proofs consumable by a fixed batch-verification
//! replay procedure.

pub mod convert;
pub mod decode;
pub mod digest;
pub mod encode;
pub mod laws;
pub mod model;
pub mod tree_index;

