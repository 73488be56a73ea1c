//! Receive-side core of an RTPS publish/subscribe stack: reassembly of
//! fragmented samples ([`fragment_assembler`]) and the per-topic store of
//! reassembled samples ([`dds_cache`]).

pub mod bitmap;
pub mod byte_buffer;
pub mod cache_change;
pub mod dds_cache;
pub mod fragment_assembler;
pub mod messages;
pub mod time;
