//! Codec for the DNS wire message format: a datagram of at most 512 octets is
//! decoded into a structured message, and a structured message is encoded back
//! into octets, with name compression.

pub mod names;
pub mod round_trip;
pub mod spelling;
pub mod structs;
pub mod utils;
