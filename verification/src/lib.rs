//! Core of a timelapse service: frame indexing, range selection,
//! encoder-pipeline orchestration, archival packaging, and a bounded
//! FIFO result cache.

pub mod archive;
pub mod cache;
mod clock;
pub mod decimal;
pub mod encoder;
pub mod frames;
pub mod inflight;
pub mod resolver;
pub mod window;
