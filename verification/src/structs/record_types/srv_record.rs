//! SRV records: where a service is found.

use vstd::prelude::*;
use crate::names::{
    be16, grows, lemma_grows_trans, lemma_put_bytes_grows, name_payload, push_name, put_bytes,
    splice, u16_bytes,
};
use crate::structs::dns_packet_buffer::{
    copy_labels, fresh_labels, label_values, BufferView, DNSLabel, DNSPacketBuffer, LabelView,
};
use crate::structs::error::{EncodeError, ParseError};

verus! {

/// Where a service is found.
#[derive(Debug)]
pub struct SRVRecord {
    /// Lower values are tried first.
    pub priority: u16,
    /// Share of the load among targets of one priority.
    pub weight: u16,
    /// The port of the service.
    pub port: u16,
    /// The host that offers the service.
    pub target: Vec<DNSLabel>,
}

/// Mathematical content of an `SRVRecord`.
pub struct SrvView {
    pub priority: u16,
    pub weight: u16,
    pub port: u16,
    pub target: Seq<LabelView>,
}

impl View for SRVRecord {
    type V = SrvView;

    open spec fn view(&self) -> SrvView {
        SrvView {
            priority: self.priority,
            weight: self.weight,
            port: self.port,
            target: self.target.deep_view(),
        }
    }
}

/// The service location that fills the `length` octets of payload from
/// `pos` on: priority, weight and port of 16 bits each, then a name that
/// ends where the payload ends.
pub open spec fn decode_srv(buf: Seq<u8>, pos: int, length: int) -> Result<SrvView, ParseError> {
    match name_payload(buf, pos + 6, length - 6, 1) {
        Err(e) => Err(e),
        Ok(name) => Ok(
            SrvView {
                priority: be16(buf, pos),
                weight: be16(buf, pos + 2),
                port: be16(buf, pos + 4),
                target: fresh_labels(name),
            },
        ),
    }
}

/// The buffer after `v` is written at its cursor.
pub open spec fn push_srv(s: BufferView, v: SrvView) -> Result<BufferView, EncodeError> {
    match put_bytes(s, u16_bytes(v.priority) + u16_bytes(v.weight) + u16_bytes(v.port)) {
        Err(e) => Err(e),
        Ok(s1) => push_name(s1, label_values(v.target)),
    }
}

impl Clone for SRVRecord {
    fn clone(&self) -> (r: Self)
        ensures
            r@ == self@,
    {
        SRVRecord {
            priority: self.priority,
            weight: self.weight,
            port: self.port,
            target: copy_labels(&self.target),
        }
    }
}

impl SRVRecord {
    /// Reads a service location from a payload of `data_length` octets at
    /// the cursor. On success the cursor stands behind the payload; on
    /// failure the buffer is left as it was.
    pub fn parse(data_length: usize, buffer: &mut DNSPacketBuffer) -> (r: Result<Self, ParseError>)
        ensures
            match decode_srv(old(buffer).buffer@, old(buffer).offset as int, data_length as int) {
                Ok(v) => {
                    &&& r matches Ok(record)
                    &&& record@ == v
                    &&& final(buffer).offset == old(buffer).offset + data_length
                    &&& final(buffer).buffer == old(buffer).buffer
                    &&& final(buffer).domains == old(buffer).domains
                },
                Err(e) => r == Err::<Self, ParseError>(e) && *final(buffer) == *old(buffer),
            },
    {
        if data_length < 7 || !buffer.remaining_bytes(data_length) {
            return Err(ParseError::PayloadLengthMismatch);
        }
        let start: usize = buffer.offset;
        let priority: u16 = buffer.read_u16();
        let weight: u16 = buffer.read_u16();
        let port: u16 = buffer.read_u16();
        match buffer.parse_name_payload(data_length - 6, 1) {
            Ok(target) => Ok(SRVRecord { priority, weight, port, target }),
            Err(e) => {
                buffer.offset = start;
                Err(e)
            },
        }
    }

    /// Writes priority, weight, port and the name at the cursor.
    pub fn write_to_buffer(&self, buffer: &mut DNSPacketBuffer) -> (r: Result<(), EncodeError>)
        ensures
            match push_srv(old(buffer)@, self@) {
                Ok(s) => r is Ok && final(buffer)@ == s,
                Err(e) => r == Err::<(), EncodeError>(e),
            },
            grows(old(buffer)@, final(buffer)@),
    {
        if !buffer.remaining_bytes(6) {
            return Err(EncodeError::TruncatedMessage);
        }
        buffer.write_u16(self.priority);
        buffer.write_u16(self.weight);
        buffer.write_u16(self.port);
        assert(buffer.buffer@ =~= splice(
            old(buffer).buffer@,
            old(buffer).offset as int,
            u16_bytes(self.priority) + u16_bytes(self.weight) + u16_bytes(self.port),
        ));
        let ghost mid = buffer@;
        let r = buffer.push_labels(&self.target);
        proof {
            lemma_put_bytes_grows(
                old(buffer)@,
                u16_bytes(self.priority) + u16_bytes(self.weight) + u16_bytes(self.port),
            );
            lemma_grows_trans(old(buffer)@, mid, buffer@);
        }
        r
    }
}

} // verus!
