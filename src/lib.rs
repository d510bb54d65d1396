//! Low-overhead timing instrumentation: records of measured spans, the binary
//! log they are written to, and the offline replay and grouping of that log.
pub mod format;
pub mod record;
pub mod codec;
pub mod stats;
pub mod collector;
pub mod sketch;
pub mod counts;
pub mod lemmas;
