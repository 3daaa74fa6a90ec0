//! An append-only key/value log: record framing with a CRC-32 integrity
//! code, appending records to a byte store, and crash-safe replay.
pub mod checksum;
pub mod record;
pub mod codec;
pub mod replay;
