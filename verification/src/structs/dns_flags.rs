//! The flag word of a header.

use vstd::prelude::*;
use crate::structs::dns_packet_buffer::{DNSPacketBuffer, BUFFER_SIZE};
use crate::structs::error::ParseError;

verus! {

/// The flag word of a header, field by field.
#[derive(Debug, Clone, Copy, PartialEq, Eq, Structural)]
pub struct DNSFlags {
    /// Query (false) or response (true).
    pub qr: bool,
    /// Kind of query, 4 bits: 0 standard, 1 inverse, 2 server status.
    pub opcode: u8,
    /// Authoritative answer.
    pub aa: bool,
    /// The message was truncated.
    pub tc: bool,
    /// Recursion desired.
    pub rd: bool,
    /// Recursion available.
    pub ra: bool,
    /// Reserved, 3 bits.
    pub z: u8,
    /// Response code, 4 bits: 0 no error, 1 format error, 2 server failure,
    /// 3 name error, 4 not implemented, 5 refused.
    pub rcode: u8,
}

/// The flags that the two octets `hi` and `lo` of a flag word stand for.
pub open spec fn flags_from_bits(hi: u8, lo: u8) -> DNSFlags {
    DNSFlags {
        qr: hi & 0x80 == 0x80,
        opcode: (hi >> 3) & 0x0F,
        aa: hi & 0x04 == 0x04,
        tc: hi & 0x02 == 0x02,
        rd: hi & 0x01 == 0x01,
        ra: lo & 0x80 == 0x80,
        z: (lo >> 4) & 0x07,
        rcode: lo & 0x0F,
    }
}

/// One bit: `mask` where `b` holds, else 0.
pub open spec fn bit(b: bool, mask: u8) -> u8 {
    if b {
        mask
    } else {
        0
    }
}

/// The first octet of the flag word of `f`.
pub open spec fn flags_hi(f: DNSFlags) -> u8 {
    bit(f.qr, 0x80) | ((f.opcode & 0x0F) << 3) | bit(f.aa, 0x04) | bit(f.tc, 0x02) | bit(
        f.rd,
        0x01,
    )
}

/// The second octet of the flag word of `f`.
pub open spec fn flags_lo(f: DNSFlags) -> u8 {
    bit(f.ra, 0x80) | ((f.z & 0x07) << 4) | (f.rcode & 0x0F)
}

impl DNSFlags {
    /// Every field fits the bits it has in the flag word.
    pub open spec fn wf(&self) -> bool {
        self.opcode < 16 && self.z < 8 && self.rcode < 16
    }

    /// The flags of a standard query: all bits clear.
    pub fn new() -> (r: Self)
        ensures
            r == flags_from_bits(0, 0),
            r.wf(),
    {
        assert(0u8 & 0x80 != 0x80 && (0u8 >> 3) & 0x0F == 0 && 0u8 & 0x04 != 0x04 && 0u8 & 0x02
            != 0x02 && 0u8 & 0x01 != 0x01 && (0u8 >> 4) & 0x07 == 0 && 0u8 & 0x0F == 0)
            by (bit_vector);
        DNSFlags {
            qr: false,
            opcode: 0,
            aa: false,
            tc: false,
            rd: false,
            ra: false,
            z: 0,
            rcode: 0,
        }
    }

    /// Reads the two octets of a flag word at the cursor.
    pub fn parse(buffer: &mut DNSPacketBuffer) -> (r: Result<Self, ParseError>)
        ensures
            old(buffer).offset + 2 <= BUFFER_SIZE ==> {
                &&& r == Ok::<Self, ParseError>(
                    flags_from_bits(
                        old(buffer).buffer@[old(buffer).offset as int],
                        old(buffer).buffer@[old(buffer).offset + 1],
                    ),
                )
                &&& r->Ok_0.wf()
                &&& final(buffer).offset == old(buffer).offset + 2
                &&& final(buffer).buffer == old(buffer).buffer
                &&& final(buffer).domains == old(buffer).domains
            },
            old(buffer).offset + 2 > BUFFER_SIZE ==> {
                &&& r == Err::<Self, ParseError>(ParseError::TruncatedMessage)
                &&& *final(buffer) == *old(buffer)
            },
    {
        if !buffer.remaining_bytes(2) {
            return Err(ParseError::TruncatedMessage);
        }
        let chunk = buffer.next_chunk(2);
        let hi: u8 = chunk[0];
        let lo: u8 = chunk[1];
        proof {
            lemma_flags_from_bits_wf(hi, lo);
        }
        Ok(
            Self {
                qr: hi & 0x80 == 0x80,
                opcode: (hi >> 3) & 0x0F,
                aa: hi & 0x04 == 0x04,
                tc: hi & 0x02 == 0x02,
                rd: hi & 0x01 == 0x01,
                ra: lo & 0x80 == 0x80,
                z: (lo >> 4) & 0x07,
                rcode: lo & 0x0F,
            },
        )
    }

    /// The two octets of the flag word. A field that is wider than its bits
    /// gives its low bits only.
    pub fn to_u8(&self) -> (r: [u8; 2])
        ensures
            r@ == seq![flags_hi(*self), flags_lo(*self)],
    {
        let qr: u8 = if self.qr { 0x80 } else { 0 };
        let aa: u8 = if self.aa { 0x04 } else { 0 };
        let tc: u8 = if self.tc { 0x02 } else { 0 };
        let rd: u8 = if self.rd { 0x01 } else { 0 };
        let ra: u8 = if self.ra { 0x80 } else { 0 };
        let hi: u8 = qr | ((self.opcode & 0x0F) << 3) | aa | tc | rd;
        let lo: u8 = ra | ((self.z & 0x07) << 4) | (self.rcode & 0x0F);
        let r: [u8; 2] = [hi, lo];
        assert(r@ =~= seq![flags_hi(*self), flags_lo(*self)]);
        r
    }
}

/// Flags that are read from a flag word have every field within its bits.
pub proof fn lemma_flags_from_bits_wf(hi: u8, lo: u8)
    ensures
        flags_from_bits(hi, lo).wf(),
{
    assert((hi >> 3) & 0x0F < 16) by (bit_vector);
    assert((lo >> 4) & 0x07 < 8) by (bit_vector);
    assert(lo & 0x0F < 16) by (bit_vector);
}

/// Every flag word is read and written back bit for bit: the flags of the
/// octets `hi` and `lo` are written as `hi` and `lo` again.
pub proof fn lemma_flag_word_round_trip(hi: u8, lo: u8)
    ensures
        flags_hi(flags_from_bits(hi, lo)) == hi,
        flags_lo(flags_from_bits(hi, lo)) == lo,
{
    let f = flags_from_bits(hi, lo);
    assert((if hi & 0x80 == 0x80 { 0x80u8 } else { 0u8 }) | ((((hi >> 3) & 0x0F) & 0x0F) << 3) | (
    if hi & 0x04 == 0x04 { 0x04u8 } else { 0u8 }) | (if hi & 0x02 == 0x02 { 0x02u8 } else { 0u8 })
        | (if hi & 0x01 == 0x01 { 0x01u8 } else { 0u8 }) == hi) by (bit_vector);
    assert((if lo & 0x80 == 0x80 { 0x80u8 } else { 0u8 }) | ((((lo >> 4) & 0x07) & 0x07) << 4) | ((
    lo & 0x0F) & 0x0F) == lo) by (bit_vector);
}

/// Flags whose fields fit their bits are written and read back field for
/// field: each of the eight fields comes back as it was.
pub proof fn lemma_flags_round_trip(f: DNSFlags)
    requires
        f.wf(),
    ensures
        flags_from_bits(flags_hi(f), flags_lo(f)) == f,
{
    let qr: u8 = bit(f.qr, 0x80);
    let aa: u8 = bit(f.aa, 0x04);
    let tc: u8 = bit(f.tc, 0x02);
    let rd: u8 = bit(f.rd, 0x01);
    let ra: u8 = bit(f.ra, 0x80);
    let op: u8 = f.opcode;
    let z: u8 = f.z;
    let rc: u8 = f.rcode;
    let hi: u8 = qr | ((op & 0x0F) << 3) | aa | tc | rd;
    let lo: u8 = ra | ((z & 0x07) << 4) | (rc & 0x0F);
    assert(hi == flags_hi(f));
    assert(lo == flags_lo(f));
    assert({
        &&& (hi & 0x80 == 0x80) == (qr == 0x80)
        &&& (hi >> 3) & 0x0F == op
        &&& (hi & 0x04 == 0x04) == (aa == 0x04)
        &&& (hi & 0x02 == 0x02) == (tc == 0x02)
        &&& (hi & 0x01 == 0x01) == (rd == 0x01)
    }) by (bit_vector)
        requires
            hi == qr | ((op & 0x0F) << 3) | aa | tc | rd,
            qr == 0x80 || qr == 0,
            aa == 0x04 || aa == 0,
            tc == 0x02 || tc == 0,
            rd == 0x01 || rd == 0,
            op < 16,
    ;
    assert({
        &&& (lo & 0x80 == 0x80) == (ra == 0x80)
        &&& (lo >> 4) & 0x07 == z
        &&& lo & 0x0F == rc
    }) by (bit_vector)
        requires
            lo == ra | ((z & 0x07) << 4) | (rc & 0x0F),
            ra == 0x80 || ra == 0,
            z < 8,
            rc < 16,
    ;
}

} // verus!
