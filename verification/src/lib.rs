//! A fixed-capacity ring buffer that overlays an oldest-to-newest logical
//! ordering onto a caller-supplied contiguous storage block, moving a single
//! cursor instead of shifting data.

pub mod traits;
pub mod ringbuffer_fixed;
