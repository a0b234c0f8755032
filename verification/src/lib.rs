//! Telemetry producer core: a single-wire sensor protocol decoder, a bounded
//! retry acquisition layer, and a durable delivery pipeline over a line-based
//! cache file.

pub mod acquire;
pub mod codec;
pub mod dht;
pub mod ds18b20;
pub mod pipeline;
pub mod sample;
