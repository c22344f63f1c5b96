//! CNAME records: canonical names.

use vstd::prelude::*;
use crate::names::{grows, name_payload, push_name};
use crate::structs::dns_packet_buffer::{
    copy_labels, fresh_labels, label_values, DNSLabel, DNSPacketBuffer, LabelView,
};
use crate::structs::error::{EncodeError, ParseError};

verus! {

/// A domain name as payload: the canonical name of an alias.
#[derive(Debug)]
pub struct CNAMERecord(pub Vec<DNSLabel>);

impl View for CNAMERecord {
    type V = Seq<LabelView>;

    open spec fn view(&self) -> Seq<LabelView> {
        self.0.deep_view()
    }
}

impl Clone for CNAMERecord {
    fn clone(&self) -> (r: Self)
        ensures
            r@ == self@,
    {
        CNAMERecord(copy_labels(&self.0))
    }
}

impl CNAMERecord {
    /// Reads the name that fills a payload of `data_length` octets at the
    /// cursor, of at least 2 octets. Pointers in it are followed within
    /// the whole buffer. On success the cursor stands behind the payload; on
    /// failure the buffer is left as it was.
    pub fn parse(data_length: usize, buffer: &mut DNSPacketBuffer) -> (r: Result<Self, ParseError>)
        ensures
            match name_payload(
                old(buffer).buffer@,
                old(buffer).offset as int,
                data_length as int,
                2,
            ) {
                Ok(name) => {
                    &&& r matches Ok(record)
                    &&& record@ == fresh_labels(name)
                    &&& final(buffer).offset == old(buffer).offset + data_length
                    &&& final(buffer).buffer == old(buffer).buffer
                    &&& final(buffer).domains == old(buffer).domains
                },
                Err(e) => r == Err::<Self, ParseError>(e) && *final(buffer) == *old(buffer),
            },
    {
        match buffer.parse_name_payload(data_length, 2) {
            Ok(labels) => Ok(CNAMERecord(labels)),
            Err(e) => Err(e),
        }
    }

    /// Writes the name at the cursor, compressed against the names written
    /// before, or nothing where it cannot be written.
    pub fn write_to_buffer(&self, buffer: &mut DNSPacketBuffer) -> (r: Result<(), EncodeError>)
        ensures
            match push_name(old(buffer)@, label_values(self@)) {
                Ok(s) => r is Ok && final(buffer)@ == s,
                Err(e) => r == Err::<(), EncodeError>(e) && *final(buffer) == *old(buffer),
            },
            grows(old(buffer)@, final(buffer)@),
    {
        buffer.push_labels(&self.0)
    }
}

} // verus!
