//! AAAA records: IPv6 addresses.

use vstd::prelude::*;
use crate::names::{grows, put_bytes};
use crate::structs::dns_packet_buffer::DNSPacketBuffer;
use crate::structs::error::{EncodeError, ParseError};

verus! {

/// An IPv6 address, as its sixteen octets.
#[derive(Debug, Clone, Copy, PartialEq, Eq)]
pub struct AAAARecord(pub [u8; 16]);

impl View for AAAARecord {
    type V = Seq<u8>;

    open spec fn view(&self) -> Seq<u8> {
        self.0@
    }
}

/// The address that a payload of declared length `data_length` holds, of
/// which `raw` are the octets: the length must be 16.
pub open spec fn decode_aaaa(data_length: int, raw: Seq<u8>) -> Result<Seq<u8>, ParseError> {
    if data_length != 16 || raw.len() < 16 {
        Err(ParseError::PayloadLengthMismatch)
    } else {
        Ok(raw.take(16))
    }
}

impl AAAARecord {
    /// Reads an address from a payload. Fails unless the declared length
    /// is 16 and the payload has that many octets.
    pub fn parse(data_length: usize, raw_data: &[u8]) -> (r: Result<Self, ParseError>)
        ensures
            match decode_aaaa(data_length as int, raw_data@) {
                Ok(octets) => r matches Ok(record) && record@ == octets,
                Err(e) => r == Err::<Self, ParseError>(e),
            },
    {
        if data_length != 16 || raw_data.len() < 16 {
            return Err(ParseError::PayloadLengthMismatch);
        }
        let mut octets: [u8; 16] = [0u8; 16];
        let mut i: usize = 0;
        while i < 16
            invariant
                i <= 16,
                raw_data@.len() >= 16,
                forall|k: int| 0 <= k < i ==> octets@[k] == raw_data@[k],
            decreases 16 - i,
        {
            octets[i] = raw_data[i];
            i += 1;
        }
        assert(octets@ =~= raw_data@.take(16));
        Ok(AAAARecord(octets))
    }

    /// Writes the sixteen octets at the cursor, or nothing where they do not
    /// fit.
    pub fn write_to_buffer(&self, buffer: &mut DNSPacketBuffer) -> (r: Result<(), EncodeError>)
        ensures
            match put_bytes(old(buffer)@, self@) {
                Ok(s) => r is Ok && final(buffer)@ == s,
                Err(e) => r == Err::<(), EncodeError>(e) && *final(buffer) == *old(buffer),
            },
            grows(old(buffer)@, final(buffer)@),
    {
        if !buffer.remaining_bytes(16) {
            return Err(EncodeError::TruncatedMessage);
        }
        buffer.write_bytes(self.0.as_slice());
        Ok(())
    }
}

} // verus!
