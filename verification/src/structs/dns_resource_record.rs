//! Entries of the answer, authority and additional sections.

use vstd::prelude::*;
use vstd::string::StrSliceExecFns;
use vstd::utf8::encode_utf8;
use crate::names::{
    be16, be32, decode_name, grows, join_items, lemma_grows_trans, push_name, put_bytes, splice,
    u16_bytes, u32_bytes, written, MAX_POINTER_HOPS,
};
use crate::structs::dns_packet_buffer::{
    copy_labels, fresh_labels, label_values, BufferView, DNSLabel, DNSPacketBuffer, LabelView,
};
use crate::structs::dns_record_types::{
    decode_rdata, lemma_address_length_checked, lemma_push_rdata_advances, push_rdata, DNSRecord,
    RecordDataView,
};
use crate::structs::error::{EncodeError, ParseError};
use crate::structs::record_types::a_record::ARecord;

verus! {

/// One entry of the answer, authority or additional section.
#[derive(Debug)]
pub struct DNSResourceRecord {
    /// The name that the record is about, label by label.
    pub name: Vec<DNSLabel>,
    /// The type of the payload: 1 A, 2 NS, 5 CNAME, 6 SOA, 12 PTR, 15 MX,
    /// 16 TXT, 28 AAAA, 33 SRV.
    pub rtype: u16,
    /// The class: 1 IN, 3 CH, 4 HS.
    pub class: u16,
    /// Seconds that the record may be kept; 0 means not at all.
    pub ttl: u32,
    /// Number of octets of the payload on the wire.
    pub rdlength: u16,
    /// The payload.
    pub data: DNSRecord,
}

/// Mathematical content of a `DNSResourceRecord`.
pub struct RecordView {
    pub name: Seq<LabelView>,
    pub rtype: u16,
    pub class: u16,
    pub ttl: u32,
    pub rdlength: u16,
    pub data: RecordDataView,
}

impl View for DNSResourceRecord {
    type V = RecordView;

    open spec fn view(&self) -> RecordView {
        RecordView {
            name: self.name.deep_view(),
            rtype: self.rtype,
            class: self.class,
            ttl: self.ttl,
            rdlength: self.rdlength,
            data: self.data@,
        }
    }
}

impl DeepView for DNSResourceRecord {
    type V = RecordView;

    open spec fn deep_view(&self) -> RecordView {
        self@
    }
}

/// The record that stands at `pos`, and where the reader is left after it:
/// a name, 16 bits of type, 16 of class, 32 of time to live, 16 of payload
/// length, and a payload of that length, read by the rule of the type.
#[verifier::opaque]
pub open spec fn decode_record(buf: Seq<u8>, pos: int) -> Result<(RecordView, int), ParseError> {
    match decode_name(buf, pos, MAX_POINTER_HOPS as nat) {
        Err(e) => Err(e),
        Ok((name, fixed)) => if fixed + 10 > buf.len() {
            Err(ParseError::TruncatedMessage)
        } else {
            let rtype = be16(buf, fixed);
            let rdlength = be16(buf, fixed + 8);
            match decode_rdata(buf, fixed + 10, rtype, rdlength as int) {
                Err(e) => Err(e),
                Ok(data) => Ok(
                    (
                        RecordView {
                            name: fresh_labels(name),
                            rtype,
                            class: be16(buf, fixed + 2),
                            ttl: be32(buf, fixed + 4),
                            rdlength,
                            data,
                        },
                        fixed + 10 + rdlength,
                    ),
                ),
            }
        },
    }
}

/// The `count` records that stand one behind the other from `pos` on.
pub open spec fn decode_records(buf: Seq<u8>, pos: int, count: nat) -> Result<
    (Seq<RecordView>, int),
    ParseError,
>
    decreases count,
{
    if count == 0 {
        Ok((Seq::empty(), pos))
    } else {
        match decode_record(buf, pos) {
            Err(e) => Err(e),
            Ok((r, next)) => join_items(seq![r], decode_records(buf, next, (count - 1) as nat)),
        }
    }
}

/// The octets between the name and the payload of a record whose payload
/// has `length` octets.
pub open spec fn record_fixed(r: RecordView, length: u16) -> Seq<u8> {
    u16_bytes(r.rtype) + u16_bytes(r.class) + u32_bytes(r.ttl) + u16_bytes(length)
}

/// The buffer after `r` is written at its cursor.
///
/// The payload length that is written is the number of octets that the
/// payload took, whatever `r.rdlength` holds.
#[verifier::opaque]
pub open spec fn push_record(s: BufferView, r: RecordView) -> Result<BufferView, EncodeError> {
    match push_name(s, label_values(r.name)) {
        Err(e) => Err(e),
        Ok(named) => match put_bytes(named, record_fixed(r, 0)) {
            Err(e) => Err(e),
            Ok(fixed) => match push_rdata(fixed, r.data) {
                Err(e) => Err(e),
                Ok(done) => Ok(
                    BufferView {
                        bytes: splice(
                            done.bytes,
                            fixed.offset - 2,
                            u16_bytes((done.offset - fixed.offset) as u16),
                        ),
                        offset: done.offset,
                        domains: done.domains,
                    },
                ),
            },
        },
    }
}

/// A record of type A whose payload length is not 4, or of type AAAA
/// whose payload length is not 16, is not read, where its name and its
/// fixed fields are.
pub proof fn lemma_record_address_length(buf: Seq<u8>, pos: int)
    requires
        decode_name(buf, pos, MAX_POINTER_HOPS as nat) is Ok,
        decode_name(buf, pos, MAX_POINTER_HOPS as nat)->Ok_0.1 + 10 <= buf.len(),
        ({
            let fixed = decode_name(buf, pos, MAX_POINTER_HOPS as nat)->Ok_0.1;
            (be16(buf, fixed) == 1 && be16(buf, fixed + 8) != 4) || (be16(buf, fixed) == 28
                && be16(buf, fixed + 8) != 16)
        }),
    ensures
        decode_record(buf, pos) == Err::<(RecordView, int), ParseError>(
            ParseError::PayloadLengthMismatch,
        ),
{
    reveal(decode_record);
    let fixed = decode_name(buf, pos, MAX_POINTER_HOPS as nat)->Ok_0.1;
    lemma_address_length_checked(
        buf,
        fixed + 10,
        be16(buf, fixed),
        be16(buf, fixed + 8) as int,
    );
}

impl Clone for DNSResourceRecord {
    fn clone(&self) -> (r: Self)
        ensures
            r@ == self@,
    {
        DNSResourceRecord {
            name: copy_labels(&self.name),
            rtype: self.rtype,
            class: self.class,
            ttl: self.ttl,
            rdlength: self.rdlength,
            data: self.data.clone(),
        }
    }
}

impl DNSResourceRecord {
    /// A record without a name, of type A, with an empty payload of type 0.
    pub fn new() -> (r: Self)
        ensures
            r@ == (RecordView {
                name: Seq::empty(),
                rtype: ARecord::TYPE,
                class: 0,
                ttl: 0,
                rdlength: 0,
                data: RecordDataView::Unknown {
                    record_type: 0,
                    data_length: 0,
                    raw_data: Seq::empty(),
                },
            }),
    {
        let r = Self {
            name: Vec::new(),
            rtype: ARecord::TYPE,
            class: 0,
            ttl: 0,
            rdlength: 0,
            data: DNSRecord::Unknown { record_type: 0, data_length: 0, raw_data: Vec::new() },
        };
        assert(r.name.deep_view() =~= Seq::empty());
        assert(r.data@->Unknown_raw_data =~= Seq::empty());
        r
    }

    /// The record with one more label at the end of its name: the octets of
    /// `name`, without an offset.
    pub fn push_name_label(self, name: String) -> (r: Self)
        ensures
            r@ == (RecordView {
                name: self@.name.push(
                    LabelView { value: encode_utf8(name@), offset: None },
                ),
                ..self@
            }),
    {
        let mut record = self;
        let value: Vec<u8> = name.as_str().as_bytes_vec();
        record.name.push(DNSLabel { value, offset: None });
        assert(record.name.deep_view() =~= self.name.deep_view().push(
            LabelView { value: encode_utf8(name@), offset: None },
        ));
        record
    }

    /// The record with its type set to `rtype`.
    pub fn rtype(self, rtype: u16) -> (r: Self)
        ensures
            r@ == (RecordView { rtype, ..self@ }),
    {
        let mut record = self;
        record.rtype = rtype;
        record
    }

    /// The record with its class set to `class`.
    pub fn class(self, class: u16) -> (r: Self)
        ensures
            r@ == (RecordView { class, ..self@ }),
    {
        let mut record = self;
        record.class = class;
        record
    }

    /// The record with its time to live set to `ttl`.
    pub fn ttl(self, ttl: u32) -> (r: Self)
        ensures
            r@ == (RecordView { ttl, ..self@ }),
    {
        let mut record = self;
        record.ttl = ttl;
        record
    }

    /// The record with its payload length set to `rdlength`.
    pub fn rdlength(self, rdlength: u16) -> (r: Self)
        ensures
            r@ == (RecordView { rdlength, ..self@ }),
    {
        let mut record = self;
        record.rdlength = rdlength;
        record
    }

    /// The record with its payload set to `data`.
    pub fn data(self, data: DNSRecord) -> (r: Self)
        ensures
            r@ == (RecordView { data: data@, ..self@ }),
    {
        let mut record = self;
        record.data = data;
        record
    }

    /// Reads one record at the cursor. On failure the buffer is left as it
    /// was.
    pub fn parse(buffer: &mut DNSPacketBuffer) -> (r: Result<Self, ParseError>)
        ensures
            match decode_record(old(buffer).buffer@, old(buffer).offset as int) {
                Ok((v, end)) => {
                    &&& r matches Ok(record)
                    &&& record@ == v
                    &&& final(buffer).offset == end
                    &&& final(buffer).buffer == old(buffer).buffer
                    &&& final(buffer).domains == old(buffer).domains
                },
                Err(e) => r == Err::<Self, ParseError>(e) && *final(buffer) == *old(buffer),
            },
    {
        proof {
            reveal(decode_record);
        }
        let start: usize = buffer.offset;
        let name: Vec<DNSLabel> = match buffer.parse_labels() {
            Ok(l) => l,
            Err(e) => {
                return Err(e);
            },
        };
        if !buffer.remaining_bytes(10) {
            buffer.offset = start;
            return Err(ParseError::TruncatedMessage);
        }
        let rtype: u16 = buffer.read_u16();
        let class: u16 = buffer.read_u16();
        let ttl: u32 = buffer.read_u32();
        let rdlength: u16 = buffer.read_u16();
        let data: DNSRecord = match DNSRecord::parse_dns_record_data(rtype, rdlength as usize, buffer) {
            Ok(d) => d,
            Err(e) => {
                buffer.offset = start;
                return Err(e);
            },
        };
        Ok(Self { name, rtype, class, ttl, rdlength, data })
    }

    /// Reads `count` records, one behind the other, from the cursor on. The
    /// first failure ends the reading, and the buffer is left as it was.
    pub fn parse_multiple(count: usize, buffer: &mut DNSPacketBuffer) -> (r: Result<
        Vec<Self>,
        ParseError,
    >)
        ensures
            match decode_records(old(buffer).buffer@, old(buffer).offset as int, count as nat) {
                Ok((rs, end)) => {
                    &&& r matches Ok(records)
                    &&& records.deep_view() == rs
                    &&& final(buffer).offset == end
                    &&& final(buffer).buffer == old(buffer).buffer
                    &&& final(buffer).domains == old(buffer).domains
                },
                Err(e) => r == Err::<Vec<Self>, ParseError>(e) && *final(buffer) == *old(buffer),
            },
    {
        let start: usize = buffer.offset;
        let ghost buf = buffer.buffer@;
        let mut records: Vec<Self> = Vec::new();
        let mut i: usize = 0;
        proof {
            let all = decode_records(buf, start as int, count as nat);
            if all is Ok {
                assert(records.deep_view() + all->Ok_0.0 =~= all->Ok_0.0);
            }
        }
        while i < count
            invariant
                i <= count,
                buf == buffer.buffer@,
                buffer.buffer == old(buffer).buffer,
                buffer.domains == old(buffer).domains,
                start == old(buffer).offset,
                decode_records(buf, start as int, count as nat) == join_items(
                    records.deep_view(),
                    decode_records(buf, buffer.offset as int, (count - i) as nat),
                ),
            decreases count - i,
        {
            let ghost before = records.deep_view();
            let record: Self = match Self::parse(buffer) {
                Ok(r) => r,
                Err(e) => {
                    buffer.offset = start;
                    return Err(e);
                },
            };
            proof {
                let rest = decode_records(buf, buffer.offset as int, (count - i - 1) as nat);
                if rest is Ok {
                    assert((before + seq![record@]) + rest->Ok_0.0 =~= before + (seq![record@]
                        + rest->Ok_0.0));
                }
            }
            records.push(record);
            assert(records.deep_view() =~= before + seq![record@]);
            i += 1;
        }
        proof {
            assert(records.deep_view() + Seq::<RecordView>::empty() =~= records.deep_view());
        }
        Ok(records)
    }

    /// Writes type, class and time to live at the cursor, and two zero
    /// octets where the payload length will stand; nothing where these ten
    /// octets do not fit.
    fn write_fixed(&self, buffer: &mut DNSPacketBuffer) -> (r: Result<(), EncodeError>)
        ensures
            match put_bytes(old(buffer)@, record_fixed(self@, 0)) {
                Ok(s) => r is Ok && final(buffer)@ == s,
                Err(e) => r == Err::<(), EncodeError>(e) && *final(buffer) == *old(buffer),
            },
            grows(old(buffer)@, final(buffer)@),
    {
        if !buffer.remaining_bytes(10) {
            return Err(EncodeError::TruncatedMessage);
        }
        buffer.write_u16(self.rtype);
        buffer.write_u16(self.class);
        buffer.write_u32(self.ttl);
        buffer.write_u16(0);
        assert(buffer.buffer@ =~= splice(
            old(buffer).buffer@,
            old(buffer).offset as int,
            record_fixed(self@, 0),
        ));
        Ok(())
    }

    /// Writes the record at the cursor: the name, compressed against the
    /// names written before, then type, class, time to live, the length of
    /// the payload, and the payload.
    ///
    /// The length that is written is the number of octets that the payload
    /// takes in this buffer; the field `rdlength` is not read.
    pub fn write_to_buffer(&self, buffer: &mut DNSPacketBuffer) -> (r: Result<(), EncodeError>)
        ensures
            match push_record(old(buffer)@, self@) {
                Ok(s) => r is Ok && final(buffer)@ == s,
                Err(e) => r == Err::<(), EncodeError>(e),
            },
            grows(old(buffer)@, final(buffer)@),
    {
        proof {
            reveal(push_record);
        }
        match buffer.push_labels(&self.name) {
            Ok(()) => {},
            Err(e) => {
                return Err(e);
            },
        }
        let ghost named = buffer@;
        match self.write_fixed(buffer) {
            Ok(()) => {},
            Err(e) => {
                return Err(e);
            },
        }
        let ghost fixed = buffer@;
        proof {
            lemma_grows_trans(old(buffer)@, named, fixed);
        }
        let start: usize = buffer.offset;
        proof {
            lemma_push_rdata_advances(buffer@, self.data@);
        }
        match self.data.write_to_bytes(buffer) {
            Ok(()) => {},
            Err(e) => {
                proof {
                    lemma_grows_trans(old(buffer)@, fixed, buffer@);
                }
                return Err(e);
            },
        }
        let ghost done = buffer@;
        proof {
            lemma_grows_trans(old(buffer)@, fixed, done);
        }
        let length: usize = buffer.offset - start;
        buffer.patch_u16(start - 2, length as u16);
        proof {
            assert forall|i: int| 0 <= i < written(old(buffer)@).len() implies written(
                buffer@,
            )[i] == written(old(buffer)@)[i] by {
                assert(written(done)[i] == written(old(buffer)@)[i]);
            }
        }
        Ok(())
    }
}

} // verus!
