//! Reconstruction, filtering and row layout of instrumented trace events.
//!
//! - `event`: the trace event schema.
//! - `stream`: framing a byte stream of concatenated JSON events.
//! - `spans`: folding events into active and finished spans.
//! - `layout`: rows by a sweep line per ancestor path.
//! - `lanes`: rows per thread, with on-CPU parts and rows reserved for children.
//! - `tree`: the event tree and the causal neighbourhood of goal spans.
//! - `order`: ordering values by time.

pub mod event;
pub mod lanes;
pub mod layout;
pub mod order;
pub mod spans;
pub mod stream;
pub mod tree;
