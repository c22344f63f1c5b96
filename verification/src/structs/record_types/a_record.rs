//! A records: IPv4 addresses.

use vstd::prelude::*;
use crate::names::{grows, put_bytes};
use crate::structs::dns_packet_buffer::DNSPacketBuffer;
use crate::structs::error::{EncodeError, ParseError};

verus! {

/// An IPv4 address, as its four octets.
#[derive(Debug, Clone, Copy, PartialEq, Eq)]
pub struct ARecord(pub [u8; 4]);

impl View for ARecord {
    type V = Seq<u8>;

    open spec fn view(&self) -> Seq<u8> {
        self.0@
    }
}

/// The address that a payload of declared length `data_length` holds, of
/// which `raw` are the octets: the length must be 4.
pub open spec fn decode_a(data_length: int, raw: Seq<u8>) -> Result<Seq<u8>, ParseError> {
    if data_length != 4 || raw.len() < 4 {
        Err(ParseError::PayloadLengthMismatch)
    } else {
        Ok(raw.take(4))
    }
}

impl ARecord {
    /// The type code of an A record.
    pub const TYPE: u16 = 1;

    /// Reads an address from a payload. Fails unless the declared length
    /// is 4 and the payload has that many octets.
    pub fn parse(data_length: usize, raw_data: &[u8]) -> (r: Result<Self, ParseError>)
        ensures
            match decode_a(data_length as int, raw_data@) {
                Ok(octets) => r matches Ok(record) && record@ == octets,
                Err(e) => r == Err::<Self, ParseError>(e),
            },
    {
        if data_length != 4 || raw_data.len() < 4 {
            return Err(ParseError::PayloadLengthMismatch);
        }
        let octets: [u8; 4] = [raw_data[0], raw_data[1], raw_data[2], raw_data[3]];
        assert(octets@ =~= raw_data@.take(4));
        Ok(ARecord(octets))
    }

    /// Writes the four octets at the cursor, or nothing where they do not
    /// fit.
    pub fn write_to_buffer(&self, buffer: &mut DNSPacketBuffer) -> (r: Result<(), EncodeError>)
        ensures
            match put_bytes(old(buffer)@, self@) {
                Ok(s) => r is Ok && final(buffer)@ == s,
                Err(e) => r == Err::<(), EncodeError>(e) && *final(buffer) == *old(buffer),
            },
            grows(old(buffer)@, final(buffer)@),
    {
        if !buffer.remaining_bytes(4) {
            return Err(EncodeError::TruncatedMessage);
        }
        buffer.write_bytes(self.0.as_slice());
        Ok(())
    }
}

} // verus!
