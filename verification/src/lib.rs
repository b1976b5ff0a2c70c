//! Serial-port framing, codecs and bookkeeping, specified and verified.

pub mod buffer_budget;
pub mod capture_store;
pub mod checksums;
pub mod cli;
pub mod text;
pub mod codec;
pub mod error;
pub mod flex_deserialize;
pub mod match_config;
pub mod framing;
pub mod learning;
pub mod limits;
pub mod log_buffer;
