//! Turn out-of-order completions of an indexed computation into an in-order,
//! one-at-a-time sequence for a consumer.
//!
//! The heart of the library is [`reorder::ReorderStage`]: it accepts
//! `(index, value)` pairs in arbitrary arrival order, holds early arrivals in
//! an index-sorted buffer, and releases values strictly in ascending index
//! order, each exactly once. [`view::SequentialView`] is the pull-based
//! surface the consumer drains, one value per pull, with an idempotent
//! end-of-sequence state.

pub mod reorder;
pub mod view;
