//! Interleaved weighted round-robin selection.
//!
//! A selector holds a fixed set of candidates, each with a weight, and hands
//! out candidate indices so that over one cycle every candidate of weight
//! `w > 0` is chosen `w + 1` times, spread across the cycle's rounds rather
//! than in bursts.
//!
//! `model` states what a selection does on an abstract state, `laws` proves
//! what runs of selections return, and `narrow` and `wide` are the two
//! executable selectors, with one-byte and full-width weights.

pub mod laws;
pub mod model;
pub mod narrow;
pub mod wide;

pub use narrow::IWRRSelector;
pub use wide::IWRRSelectorByWider;
