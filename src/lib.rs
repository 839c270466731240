//! DNS message wire-format codec: decoding queries from raw UDP payloads and
//! encoding responses with label compression.

pub mod error;
pub mod bytes;
pub mod laws;
pub mod message;
pub mod name;
pub mod record;
pub mod server;
pub mod types;
