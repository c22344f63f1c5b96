//! SOA records: the start of a zone of authority.

use vstd::prelude::*;
use crate::names::{
    be32, decode_name, grows, lemma_decode_name_end, lemma_grows_trans, lemma_put_bytes_grows,
    push_name, put_bytes, splice, u32_bytes, MAX_POINTER_HOPS,
};
use crate::structs::dns_packet_buffer::{
    copy_labels, fresh_labels, label_values, BufferView, DNSLabel, DNSPacketBuffer, LabelView,
};
use crate::structs::error::{EncodeError, ParseError};

verus! {

/// The start of a zone of authority.
#[derive(Debug)]
pub struct SOARecord {
    /// The primary name server of the zone.
    pub primary_ns: Vec<DNSLabel>,
    /// The mailbox of whoever is responsible for the zone, as a name.
    pub responsible_email: Vec<DNSLabel>,
    /// Version of the zone.
    pub serial: u32,
    /// Seconds until a secondary asks again.
    pub refresh: u32,
    /// Seconds until a failed refresh is tried again.
    pub retry: u32,
    /// Seconds until the zone is no longer authoritative.
    pub expire: u32,
    /// Least time to live of the zone's records.
    pub minimum_ttl: u32,
}

/// Mathematical content of an `SOARecord`.
pub struct SoaView {
    pub primary_ns: Seq<LabelView>,
    pub responsible_email: Seq<LabelView>,
    pub serial: u32,
    pub refresh: u32,
    pub retry: u32,
    pub expire: u32,
    pub minimum_ttl: u32,
}

impl View for SOARecord {
    type V = SoaView;

    open spec fn view(&self) -> SoaView {
        SoaView {
            primary_ns: self.primary_ns.deep_view(),
            responsible_email: self.responsible_email.deep_view(),
            serial: self.serial,
            refresh: self.refresh,
            retry: self.retry,
            expire: self.expire,
            minimum_ttl: self.minimum_ttl,
        }
    }
}

/// The five 32-bit numbers of `v`, as they are written.
pub open spec fn soa_numbers(v: SoaView) -> Seq<u8> {
    u32_bytes(v.serial) + u32_bytes(v.refresh) + u32_bytes(v.retry) + u32_bytes(v.expire)
        + u32_bytes(v.minimum_ttl)
}

/// The start of authority that fills the `length` octets of payload from
/// `pos` on: two names, then five 32-bit numbers that end where the payload
/// ends. The payload has at least 22 octets.
pub open spec fn decode_soa(buf: Seq<u8>, pos: int, length: int) -> Result<SoaView, ParseError> {
    if pos + length > buf.len() || length < 22 {
        Err(ParseError::PayloadLengthMismatch)
    } else {
        match decode_name(buf, pos, MAX_POINTER_HOPS as nat) {
            Err(e) => Err(e),
            Ok((primary, mid)) => match decode_name(buf, mid, MAX_POINTER_HOPS as nat) {
                Err(e) => Err(e),
                Ok((mailbox, end)) => if end + 20 != pos + length {
                    Err(ParseError::PayloadLengthMismatch)
                } else {
                    Ok(
                        SoaView {
                            primary_ns: fresh_labels(primary),
                            responsible_email: fresh_labels(mailbox),
                            serial: be32(buf, end),
                            refresh: be32(buf, end + 4),
                            retry: be32(buf, end + 8),
                            expire: be32(buf, end + 12),
                            minimum_ttl: be32(buf, end + 16),
                        },
                    )
                },
            },
        }
    }
}

/// The buffer after `v` is written at its cursor.
pub open spec fn push_soa(s: BufferView, v: SoaView) -> Result<BufferView, EncodeError> {
    match push_name(s, label_values(v.primary_ns)) {
        Err(e) => Err(e),
        Ok(s1) => match push_name(s1, label_values(v.responsible_email)) {
            Err(e) => Err(e),
            Ok(s2) => put_bytes(s2, soa_numbers(v)),
        },
    }
}

impl Clone for SOARecord {
    fn clone(&self) -> (r: Self)
        ensures
            r@ == self@,
    {
        SOARecord {
            primary_ns: copy_labels(&self.primary_ns),
            responsible_email: copy_labels(&self.responsible_email),
            serial: self.serial,
            refresh: self.refresh,
            retry: self.retry,
            expire: self.expire,
            minimum_ttl: self.minimum_ttl,
        }
    }
}

impl SOARecord {
    /// Reads a start of authority from a payload of `data_length` octets at
    /// the cursor. On success the cursor stands behind the payload; on
    /// failure the buffer is left as it was.
    pub fn parse(data_length: usize, buffer: &mut DNSPacketBuffer) -> (r: Result<Self, ParseError>)
        ensures
            match decode_soa(old(buffer).buffer@, old(buffer).offset as int, data_length as int) {
                Ok(v) => {
                    &&& r matches Ok(record)
                    &&& record@ == v
                    &&& final(buffer).offset == old(buffer).offset + data_length
                    &&& final(buffer).buffer == old(buffer).buffer
                    &&& final(buffer).domains == old(buffer).domains
                },
                Err(e) => r == Err::<Self, ParseError>(e) && *final(buffer) == *old(buffer),
            },
    {
        if !buffer.remaining_bytes(data_length) || data_length < 22 {
            return Err(ParseError::PayloadLengthMismatch);
        }
        let start: usize = buffer.offset;
        let primary_ns: Vec<DNSLabel> = match buffer.parse_labels() {
            Ok(l) => l,
            Err(e) => {
                return Err(e);
            },
        };
        proof {
            lemma_decode_name_end(buffer.buffer@, start as int, MAX_POINTER_HOPS as nat);
        }
        let ghost mid = buffer.offset as int;
        let responsible_email: Vec<DNSLabel> = match buffer.parse_labels() {
            Ok(l) => l,
            Err(e) => {
                buffer.offset = start;
                return Err(e);
            },
        };
        proof {
            lemma_decode_name_end(buffer.buffer@, mid, MAX_POINTER_HOPS as nat);
        }
        if buffer.offset + 20 != start + data_length {
            buffer.offset = start;
            return Err(ParseError::PayloadLengthMismatch);
        }
        let serial: u32 = buffer.read_u32();
        let refresh: u32 = buffer.read_u32();
        let retry: u32 = buffer.read_u32();
        let expire: u32 = buffer.read_u32();
        let minimum_ttl: u32 = buffer.read_u32();
        Ok(
            SOARecord {
                primary_ns,
                responsible_email,
                serial,
                refresh,
                retry,
                expire,
                minimum_ttl,
            },
        )
    }

    /// Writes the two names and the five numbers at the cursor.
    pub fn write_to_buffer(&self, buffer: &mut DNSPacketBuffer) -> (r: Result<(), EncodeError>)
        ensures
            match push_soa(old(buffer)@, self@) {
                Ok(s) => r is Ok && final(buffer)@ == s,
                Err(e) => r == Err::<(), EncodeError>(e),
            },
            grows(old(buffer)@, final(buffer)@),
    {
        match buffer.push_labels(&self.primary_ns) {
            Ok(()) => {},
            Err(e) => {
                return Err(e);
            },
        }
        let ghost first = buffer@;
        match buffer.push_labels(&self.responsible_email) {
            Ok(()) => {},
            Err(e) => {
                return Err(e);
            },
        }
        proof {
            lemma_grows_trans(old(buffer)@, first, buffer@);
        }
        if !buffer.remaining_bytes(20) {
            return Err(EncodeError::TruncatedMessage);
        }
        let ghost named = buffer@;
        buffer.write_u32(self.serial);
        buffer.write_u32(self.refresh);
        buffer.write_u32(self.retry);
        buffer.write_u32(self.expire);
        buffer.write_u32(self.minimum_ttl);
        assert(buffer.buffer@ =~= splice(named.bytes, named.offset, soa_numbers(self@)));
        proof {
            lemma_put_bytes_grows(named, soa_numbers(self@));
            lemma_grows_trans(old(buffer)@, named, buffer@);
        }
        Ok(())
    }
}

} // verus!
