//! The payloads that are interpreted, one module for each type.

pub mod a_record;
pub mod aaaa_record;
pub mod cname_record;
pub mod mx_record;
pub mod ns_record;
pub mod ptr_record;
pub mod soa_record;
pub mod srv_record;
pub mod txt_record;
