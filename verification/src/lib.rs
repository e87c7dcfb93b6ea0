//! Per-interface, per-source-address traffic accounting.
//!
//! A capture loop hands each raw frame to the decoder, which yields a
//! [`stats::TrafficEvent`] for IPv4/IPv6 frames.  The [`agg::Aggregator`]
//! applies each event to its [`table::CounterTable`] and decides, after every
//! event, whether the table is due to be flushed to durable storage.  The
//! snapshot documents written on a flush are rendered and reloaded by the
//! verified codec in [`codec`].

pub mod stats;
pub mod table;
pub mod agg;
pub mod decode;
pub mod text;
pub mod codec;
