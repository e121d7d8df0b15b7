//! Sub-word vocabulary induction over character streams: a greedy pair-merging
//! trainer, an encoder and decoder against the trained gram table, and a
//! fixed-width binary codec for that table.
pub mod gram;
pub mod pairs;
pub mod train;
pub mod encode;
pub mod codec;
pub mod corpus;

