//! MX records: mail exchanges.

use vstd::prelude::*;
use crate::names::{
    be16, grows, lemma_grows_trans, lemma_put_bytes_grows, name_payload, push_name, put_bytes,
    u16_bytes,
};
use crate::structs::dns_packet_buffer::{
    copy_labels, fresh_labels, label_values, BufferView, DNSLabel, DNSPacketBuffer, LabelView,
};
use crate::structs::error::{EncodeError, ParseError};

verus! {

/// A mail exchange: a preference and the name of the host.
#[derive(Debug)]
pub struct MXRecord {
    /// Lower values are preferred.
    pub preference: u16,
    /// The host that takes mail for the owner name.
    pub mail_exchange: Vec<DNSLabel>,
}

/// Mathematical content of an `MXRecord`.
pub struct MxView {
    pub preference: u16,
    pub mail_exchange: Seq<LabelView>,
}

impl View for MXRecord {
    type V = MxView;

    open spec fn view(&self) -> MxView {
        MxView { preference: self.preference, mail_exchange: self.mail_exchange.deep_view() }
    }
}

/// The mail exchange that fills the `length` octets of payload from `pos`
/// on: a 16-bit preference, then a name that ends where the payload ends.
pub open spec fn decode_mx(buf: Seq<u8>, pos: int, length: int) -> Result<MxView, ParseError> {
    match name_payload(buf, pos + 2, length - 2, 1) {
        Err(e) => Err(e),
        Ok(name) => Ok(MxView { preference: be16(buf, pos), mail_exchange: fresh_labels(name) }),
    }
}

/// The buffer after `v` is written at its cursor.
pub open spec fn push_mx(s: BufferView, v: MxView) -> Result<BufferView, EncodeError> {
    match put_bytes(s, u16_bytes(v.preference)) {
        Err(e) => Err(e),
        Ok(s1) => push_name(s1, label_values(v.mail_exchange)),
    }
}

impl Clone for MXRecord {
    fn clone(&self) -> (r: Self)
        ensures
            r@ == self@,
    {
        MXRecord { preference: self.preference, mail_exchange: copy_labels(&self.mail_exchange) }
    }
}

impl MXRecord {
    /// Reads a mail exchange from a payload of `data_length` octets at the
    /// cursor. On success the cursor stands behind the payload; on failure
    /// the buffer is left as it was.
    pub fn parse(data_length: usize, buffer: &mut DNSPacketBuffer) -> (r: Result<Self, ParseError>)
        ensures
            match decode_mx(old(buffer).buffer@, old(buffer).offset as int, data_length as int) {
                Ok(v) => {
                    &&& r matches Ok(record)
                    &&& record@ == v
                    &&& final(buffer).offset == old(buffer).offset + data_length
                    &&& final(buffer).buffer == old(buffer).buffer
                    &&& final(buffer).domains == old(buffer).domains
                },
                Err(e) => r == Err::<Self, ParseError>(e) && *final(buffer) == *old(buffer),
            },
    {
        if data_length < 3 || !buffer.remaining_bytes(data_length) {
            return Err(ParseError::PayloadLengthMismatch);
        }
        let start: usize = buffer.offset;
        let preference: u16 = buffer.read_u16();
        match buffer.parse_name_payload(data_length - 2, 1) {
            Ok(mail_exchange) => Ok(MXRecord { preference, mail_exchange }),
            Err(e) => {
                buffer.offset = start;
                Err(e)
            },
        }
    }

    /// Writes the preference and the name at the cursor.
    pub fn write_to_buffer(&self, buffer: &mut DNSPacketBuffer) -> (r: Result<(), EncodeError>)
        ensures
            match push_mx(old(buffer)@, self@) {
                Ok(s) => r is Ok && final(buffer)@ == s,
                Err(e) => r == Err::<(), EncodeError>(e),
            },
            grows(old(buffer)@, final(buffer)@),
    {
        if !buffer.remaining_bytes(2) {
            return Err(EncodeError::TruncatedMessage);
        }
        buffer.write_u16(self.preference);
        let ghost mid = buffer@;
        let r = buffer.push_labels(&self.mail_exchange);
        proof {
            lemma_put_bytes_grows(old(buffer)@, u16_bytes(self.preference));
            lemma_grows_trans(old(buffer)@, mid, buffer@);
        }
        r
    }
}

} // verus!
