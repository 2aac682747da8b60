//! A personal reminder tracker with a fixed-schedule spaced-repetition
//! policy: the user records short pieces of content, and each confirmed
//! review advances a deterministic schedule until the item is completed.

pub mod codec;
pub mod format;
pub mod laws;
pub mod store;
pub mod time;
