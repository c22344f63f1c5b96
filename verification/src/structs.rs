//! The parts of a message, and the buffer they are read from and written
//! into.

pub mod dns_flags;
pub mod dns_header;
pub mod dns_packet;
pub mod dns_packet_buffer;
pub mod dns_question;
pub mod dns_record_types;
pub mod dns_resource_record;
pub mod error;
pub mod record_types;
