//! The payload of a resource record, by type.

use vstd::prelude::*;
use vstd::slice::slice_to_vec;
use crate::names::{grows, name_payload, push_name, put_bytes};
use crate::structs::dns_packet_buffer::{
    fresh_labels, label_values, BufferView, DNSPacketBuffer, LabelView,
};
use crate::structs::error::{EncodeError, ParseError};
use crate::structs::record_types::a_record::{decode_a, ARecord};
use crate::structs::record_types::aaaa_record::{decode_aaaa, AAAARecord};
use crate::structs::record_types::cname_record::CNAMERecord;
use crate::structs::record_types::mx_record::{decode_mx, push_mx, MXRecord, MxView};
use crate::structs::record_types::ns_record::NSRecord;
use crate::structs::record_types::ptr_record::PTRRecord;
use crate::structs::record_types::soa_record::{decode_soa, push_soa, SOARecord, SoaView};
use crate::structs::record_types::srv_record::{decode_srv, push_srv, SRVRecord, SrvView};
use crate::structs::record_types::txt_record::{decode_txt, push_txt, TXTRecord};

verus! {

/// Type code of an A record.
pub const TYPE_A: u16 = 1;

/// Type code of an NS record.
pub const TYPE_NS: u16 = 2;

/// Type code of a CNAME record.
pub const TYPE_CNAME: u16 = 5;

/// Type code of an SOA record.
pub const TYPE_SOA: u16 = 6;

/// Type code of a PTR record.
pub const TYPE_PTR: u16 = 12;

/// Type code of an MX record.
pub const TYPE_MX: u16 = 15;

/// Type code of a TXT record.
pub const TYPE_TXT: u16 = 16;

/// Type code of an AAAA record.
pub const TYPE_AAAA: u16 = 28;

/// Type code of an SRV record.
pub const TYPE_SRV: u16 = 33;

/// The payload of a resource record, by type.
#[derive(Debug)]
pub enum DNSRecord {
    A(ARecord),
    AAAA(AAAARecord),
    CNAME(CNAMERecord),
    MX(MXRecord),
    TXT(TXTRecord),
    SRV(SRVRecord),
    NS(NSRecord),
    PTR(PTRRecord),
    SOA(SOARecord),
    /// A payload of a type that is not interpreted: its type code, its
    /// declared length and its octets, kept as they came.
    Unknown { record_type: u16, data_length: usize, raw_data: Vec<u8> },
}

/// Mathematical content of a `DNSRecord`.
pub enum RecordDataView {
    A(Seq<u8>),
    AAAA(Seq<u8>),
    CNAME(Seq<LabelView>),
    MX(MxView),
    TXT(Seq<Seq<u8>>),
    SRV(SrvView),
    NS(Seq<LabelView>),
    PTR(Seq<LabelView>),
    SOA(SoaView),
    Unknown { record_type: u16, data_length: usize, raw_data: Seq<u8> },
}

impl View for DNSRecord {
    type V = RecordDataView;

    open spec fn view(&self) -> RecordDataView {
        match self {
            DNSRecord::A(r) => RecordDataView::A(r@),
            DNSRecord::AAAA(r) => RecordDataView::AAAA(r@),
            DNSRecord::CNAME(r) => RecordDataView::CNAME(r@),
            DNSRecord::MX(r) => RecordDataView::MX(r@),
            DNSRecord::TXT(r) => RecordDataView::TXT(r@),
            DNSRecord::SRV(r) => RecordDataView::SRV(r@),
            DNSRecord::NS(r) => RecordDataView::NS(r@),
            DNSRecord::PTR(r) => RecordDataView::PTR(r@),
            DNSRecord::SOA(r) => RecordDataView::SOA(r@),
            DNSRecord::Unknown { record_type, data_length, raw_data } => RecordDataView::Unknown {
                record_type: *record_type,
                data_length: *data_length,
                raw_data: raw_data@,
            },
        }
    }
}

/// A name payload, read with `name_payload`, as the labels of a record.
pub open spec fn decode_labels(buf: Seq<u8>, pos: int, length: int, least: int) -> Result<
    Seq<LabelView>,
    ParseError,
> {
    match name_payload(buf, pos, length, least) {
        Ok(name) => Ok(fresh_labels(name)),
        Err(e) => Err(e),
    }
}

/// The payload of type `record_type` that fills the `length` octets from
/// `pos` on.
///
/// The payload must lie within the buffer. A type that is not interpreted
/// gives `Unknown`, with the type code, the length and the octets as they
/// stand.
#[verifier::opaque]
pub open spec fn decode_rdata(buf: Seq<u8>, pos: int, record_type: u16, length: int) -> Result<
    RecordDataView,
    ParseError,
> {
    let raw = buf.subrange(pos, pos + length);
    if pos + length > buf.len() {
        Err(ParseError::PayloadLengthMismatch)
    } else if record_type == TYPE_A {
        match decode_a(length, raw) {
            Ok(v) => Ok(RecordDataView::A(v)),
            Err(e) => Err(e),
        }
    } else if record_type == TYPE_AAAA {
        match decode_aaaa(length, raw) {
            Ok(v) => Ok(RecordDataView::AAAA(v)),
            Err(e) => Err(e),
        }
    } else if record_type == TYPE_CNAME {
        match decode_labels(buf, pos, length, 2) {
            Ok(v) => Ok(RecordDataView::CNAME(v)),
            Err(e) => Err(e),
        }
    } else if record_type == TYPE_MX {
        match decode_mx(buf, pos, length) {
            Ok(v) => Ok(RecordDataView::MX(v)),
            Err(e) => Err(e),
        }
    } else if record_type == TYPE_TXT {
        match decode_txt(buf, pos, length) {
            Ok(v) => Ok(RecordDataView::TXT(v)),
            Err(e) => Err(e),
        }
    } else if record_type == TYPE_SRV {
        match decode_srv(buf, pos, length) {
            Ok(v) => Ok(RecordDataView::SRV(v)),
            Err(e) => Err(e),
        }
    } else if record_type == TYPE_NS {
        match decode_labels(buf, pos, length, 0) {
            Ok(v) => Ok(RecordDataView::NS(v)),
            Err(e) => Err(e),
        }
    } else if record_type == TYPE_PTR {
        match decode_labels(buf, pos, length, 2) {
            Ok(v) => Ok(RecordDataView::PTR(v)),
            Err(e) => Err(e),
        }
    } else if record_type == TYPE_SOA {
        match decode_soa(buf, pos, length) {
            Ok(v) => Ok(RecordDataView::SOA(v)),
            Err(e) => Err(e),
        }
    } else {
        Ok(
            RecordDataView::Unknown {
                record_type,
                data_length: length as usize,
                raw_data: raw,
            },
        )
    }
}

/// The buffer after the payload `data` is written at its cursor.
#[verifier::opaque]
pub open spec fn push_rdata(s: BufferView, data: RecordDataView) -> Result<
    BufferView,
    EncodeError,
> {
    match data {
        RecordDataView::A(v) => put_bytes(s, v),
        RecordDataView::AAAA(v) => put_bytes(s, v),
        RecordDataView::CNAME(v) => push_name(s, label_values(v)),
        RecordDataView::MX(v) => push_mx(s, v),
        RecordDataView::TXT(v) => push_txt(s, v),
        RecordDataView::SRV(v) => push_srv(s, v),
        RecordDataView::NS(v) => push_name(s, label_values(v)),
        RecordDataView::PTR(v) => push_name(s, label_values(v)),
        RecordDataView::SOA(v) => push_soa(s, v),
        RecordDataView::Unknown { raw_data, .. } => put_bytes(s, raw_data),
    }
}

/// Writing a payload never moves the cursor back, nor past the end.
pub proof fn lemma_push_rdata_advances(s: BufferView, data: RecordDataView)
    requires
        0 <= s.offset,
    ensures
        push_rdata(s, data) matches Ok(t) ==> s.offset <= t.offset <= t.bytes.len()
            && t.bytes.len() == s.bytes.len(),
{
    reveal(push_rdata);
    match data {
        RecordDataView::MX(v) => {
            assert(push_mx(s, v) matches Ok(t) ==> s.offset <= t.offset <= t.bytes.len()
                && t.bytes.len() == s.bytes.len());
        },
        RecordDataView::SRV(v) => {
            assert(push_srv(s, v) matches Ok(t) ==> s.offset <= t.offset <= t.bytes.len()
                && t.bytes.len() == s.bytes.len());
        },
        RecordDataView::SOA(v) => {
            assert(push_soa(s, v) matches Ok(t) ==> s.offset <= t.offset <= t.bytes.len()
                && t.bytes.len() == s.bytes.len());
        },
        _ => {},
    }
}

/// An address whose declared length is not that of its type is not read:
/// 4 octets for an A record, 16 for an AAAA record.
pub proof fn lemma_address_length_checked(buf: Seq<u8>, pos: int, record_type: u16, length: int)
    requires
        (record_type == TYPE_A && length != 4) || (record_type == TYPE_AAAA && length != 16),
    ensures
        decode_rdata(buf, pos, record_type, length) == Err::<RecordDataView, ParseError>(
            ParseError::PayloadLengthMismatch,
        ),
{
    reveal(decode_rdata);
}

/// A payload of a type that is not interpreted is kept as it is: it is
/// read as `Unknown` with its type code, its length and its octets, and
/// what is read is written back as the same octets.
pub proof fn lemma_unknown_payload_kept(
    buf: Seq<u8>,
    pos: int,
    record_type: u16,
    length: int,
    s: BufferView,
)
    requires
        0 <= pos,
        0 <= length <= usize::MAX,
        pos + length <= buf.len(),
        record_type != TYPE_A && record_type != TYPE_NS && record_type != TYPE_CNAME
            && record_type != TYPE_SOA && record_type != TYPE_PTR && record_type != TYPE_MX
            && record_type != TYPE_TXT && record_type != TYPE_AAAA && record_type != TYPE_SRV,
    ensures
        decode_rdata(buf, pos, record_type, length) == Ok::<RecordDataView, ParseError>(
            RecordDataView::Unknown {
                record_type,
                data_length: length as usize,
                raw_data: buf.subrange(pos, pos + length),
            },
        ),
        push_rdata(s, decode_rdata(buf, pos, record_type, length)->Ok_0) == put_bytes(
            s,
            buf.subrange(pos, pos + length),
        ),
{
    reveal(decode_rdata);
    reveal(push_rdata);
}

impl Clone for DNSRecord {
    fn clone(&self) -> (r: Self)
        ensures
            r@ == self@,
    {
        match self {
            DNSRecord::A(record) => DNSRecord::A(*record),
            DNSRecord::AAAA(record) => DNSRecord::AAAA(*record),
            DNSRecord::CNAME(record) => DNSRecord::CNAME(record.clone()),
            DNSRecord::MX(record) => DNSRecord::MX(record.clone()),
            DNSRecord::TXT(record) => DNSRecord::TXT(record.clone()),
            DNSRecord::SRV(record) => DNSRecord::SRV(record.clone()),
            DNSRecord::NS(record) => DNSRecord::NS(record.clone()),
            DNSRecord::PTR(record) => DNSRecord::PTR(record.clone()),
            DNSRecord::SOA(record) => DNSRecord::SOA(record.clone()),
            DNSRecord::Unknown { record_type, data_length, raw_data } => DNSRecord::Unknown {
                record_type: *record_type,
                data_length: *data_length,
                raw_data: slice_to_vec(raw_data.as_slice()),
            },
        }
    }
}

impl DNSRecord {
    /// Reads the payload of a record of type `record_type` and declared
    /// length `data_length` at the cursor.
    ///
    /// Fails with `PayloadLengthMismatch` where fewer than `data_length`
    /// octets are left, or where the length does not suit the type. On
    /// success the cursor stands behind the payload; on failure the buffer is
    /// left as it was.
    pub fn parse_dns_record_data(
        record_type: u16,
        data_length: usize,
        buffer: &mut DNSPacketBuffer,
    ) -> (r: Result<DNSRecord, ParseError>)
        ensures
            match decode_rdata(
                old(buffer).buffer@,
                old(buffer).offset as int,
                record_type,
                data_length as int,
            ) {
                Ok(v) => {
                    &&& r matches Ok(record)
                    &&& record@ == v
                    &&& final(buffer).offset == old(buffer).offset + data_length
                    &&& final(buffer).buffer == old(buffer).buffer
                    &&& final(buffer).domains == old(buffer).domains
                },
                Err(e) => r == Err::<DNSRecord, ParseError>(e) && *final(buffer) == *old(buffer),
            },
    {
        proof {
            reveal(decode_rdata);
        }
        if !buffer.remaining_bytes(data_length) {
            return Err(ParseError::PayloadLengthMismatch);
        }
        let start: usize = buffer.offset;
        if record_type == TYPE_A {
            let parsed = ARecord::parse(data_length, buffer.next_chunk(data_length));
            match parsed {
                Ok(record) => Ok(DNSRecord::A(record)),
                Err(e) => {
                    buffer.offset = start;
                    Err(e)
                },
            }
        } else if record_type == TYPE_AAAA {
            let parsed = AAAARecord::parse(data_length, buffer.next_chunk(data_length));
            match parsed {
                Ok(record) => Ok(DNSRecord::AAAA(record)),
                Err(e) => {
                    buffer.offset = start;
                    Err(e)
                },
            }
        } else if record_type == TYPE_CNAME {
            match CNAMERecord::parse(data_length, buffer) {
                Ok(record) => Ok(DNSRecord::CNAME(record)),
                Err(e) => Err(e),
            }
        } else if record_type == TYPE_MX {
            match MXRecord::parse(data_length, buffer) {
                Ok(record) => Ok(DNSRecord::MX(record)),
                Err(e) => Err(e),
            }
        } else if record_type == TYPE_TXT {
            match TXTRecord::parse(data_length, buffer) {
                Ok(record) => Ok(DNSRecord::TXT(record)),
                Err(e) => Err(e),
            }
        } else if record_type == TYPE_SRV {
            match SRVRecord::parse(data_length, buffer) {
                Ok(record) => Ok(DNSRecord::SRV(record)),
                Err(e) => Err(e),
            }
        } else if record_type == TYPE_NS {
            match NSRecord::parse(data_length, buffer) {
                Ok(record) => Ok(DNSRecord::NS(record)),
                Err(e) => Err(e),
            }
        } else if record_type == TYPE_PTR {
            match PTRRecord::parse(data_length, buffer) {
                Ok(record) => Ok(DNSRecord::PTR(record)),
                Err(e) => Err(e),
            }
        } else if record_type == TYPE_SOA {
            match SOARecord::parse(data_length, buffer) {
                Ok(record) => Ok(DNSRecord::SOA(record)),
                Err(e) => Err(e),
            }
        } else {
            let raw_data: Vec<u8> = slice_to_vec(buffer.next_chunk(data_length));
            Ok(DNSRecord::Unknown { record_type, data_length, raw_data })
        }
    }

    /// Writes the payload at the cursor, by the rule of its type. An
    /// `Unknown` payload is written as the octets it holds.
    pub fn write_to_bytes(&self, buffer: &mut DNSPacketBuffer) -> (r: Result<(), EncodeError>)
        ensures
            match push_rdata(old(buffer)@, self@) {
                Ok(s) => r is Ok && final(buffer)@ == s,
                Err(e) => r == Err::<(), EncodeError>(e),
            },
            grows(old(buffer)@, final(buffer)@),
    {
        proof {
            reveal(push_rdata);
        }
        match self {
            DNSRecord::A(record) => record.write_to_buffer(buffer),
            DNSRecord::AAAA(record) => record.write_to_buffer(buffer),
            DNSRecord::CNAME(record) => record.write_to_buffer(buffer),
            DNSRecord::MX(record) => record.write_to_buffer(buffer),
            DNSRecord::TXT(record) => record.write_to_buffer(buffer),
            DNSRecord::SRV(record) => record.write_to_buffer(buffer),
            DNSRecord::NS(record) => record.write_to_buffer(buffer),
            DNSRecord::PTR(record) => record.write_to_buffer(buffer),
            DNSRecord::SOA(record) => record.write_to_buffer(buffer),
            DNSRecord::Unknown { record_type, data_length, raw_data } => {
                if !buffer.remaining_bytes(raw_data.len()) {
                    return Err(EncodeError::TruncatedMessage);
                }
                buffer.write_bytes(raw_data.as_slice());
                Ok(())
            },
        }
    }
}

} // verus!
