//! The header of a message.

use vstd::prelude::*;
use crate::names::{be16, grows, splice, u16_bytes};
use crate::structs::dns_flags::{flags_from_bits, flags_hi, flags_lo, DNSFlags};
use crate::structs::dns_packet::{countable, DNSPacket, PacketView};
use crate::structs::dns_packet_buffer::{DNSPacketBuffer, BUFFER_SIZE};
use crate::structs::error::{EncodeError, ParseError};

verus! {

/// Number of octets of a header on the wire.
pub const HEADER_SIZE: usize = 12;

/// The fixed part at the start of every message.
#[derive(Debug, Clone, Copy, PartialEq, Eq, Structural)]
pub struct DNSHeader {
    /// Chosen by whoever asks, and repeated in the answer.
    pub id: u16,
    /// The flag word.
    pub flags: DNSFlags,
    /// Number of questions.
    pub questions_count: u16,
    /// Number of answer records.
    pub answers_count: u16,
    /// Number of authority records.
    pub authorities_count: u16,
    /// Number of additional records.
    pub additionals_count: u16,
}

/// The header that the twelve octets from `pos` on stand for.
pub open spec fn header_at(buf: Seq<u8>, pos: int) -> DNSHeader {
    DNSHeader {
        id: be16(buf, pos),
        flags: flags_from_bits(buf[pos + 2], buf[pos + 3]),
        questions_count: be16(buf, pos + 4),
        answers_count: be16(buf, pos + 6),
        authorities_count: be16(buf, pos + 8),
        additionals_count: be16(buf, pos + 10),
    }
}

/// The twelve octets that `h` is written as.
pub open spec fn header_bytes(h: DNSHeader) -> Seq<u8> {
    u16_bytes(h.id) + seq![flags_hi(h.flags), flags_lo(h.flags)] + u16_bytes(h.questions_count)
        + u16_bytes(h.answers_count) + u16_bytes(h.authorities_count) + u16_bytes(
        h.additionals_count,
    )
}

/// The header of a message that is made here for the sections of `m`,
/// under the id `id`.
///
/// The response bit is set where `m` has no answer, authority or additional
/// record. The message is authoritative, not truncated, with recursion
/// desired and available, a standard query without error. The counts are the
/// lengths of the sections.
pub open spec fn header_for(m: PacketView, id: u16) -> DNSHeader {
    DNSHeader {
        id,
        flags: DNSFlags {
            qr: m.answers.len() == 0 && m.authorities.len() == 0 && m.additionals.len() == 0,
            opcode: 0,
            aa: true,
            tc: false,
            rd: true,
            ra: true,
            z: 0,
            rcode: 0,
        },
        questions_count: m.questions.len() as u16,
        answers_count: m.answers.len() as u16,
        authorities_count: m.authorities.len() as u16,
        additionals_count: m.additionals.len() as u16,
    }
}

impl DNSHeader {
    /// The header for the sections of `dns`, under the id `id`.
    pub fn from_dns_struct(dns: &DNSPacket, id: u16) -> (r: Self)
        requires
            countable(dns@),
        ensures
            r == header_for(dns@, id),
    {
        let mut flags = DNSFlags::new();
        if (dns.answers.len() > 0) || (dns.authorities.len() > 0) || (dns.additionals.len() > 0) {
            flags.qr = false;
        } else {
            flags.qr = true;
        }
        flags.opcode = 0;
        flags.aa = true;
        flags.tc = false;
        flags.rd = true;
        flags.ra = true;
        flags.z = 0;
        flags.rcode = 0;
        DNSHeader {
            id,
            flags,
            questions_count: dns.questions.len() as u16,
            answers_count: dns.answers.len() as u16,
            authorities_count: dns.authorities.len() as u16,
            additionals_count: dns.additionals.len() as u16,
        }
    }

    /// Reads a header at the cursor: the id, the flag word and the four
    /// counts. Fails, and leaves the buffer as it was, where fewer than
    /// twelve octets are left.
    pub fn parse(buffer: &mut DNSPacketBuffer) -> (r: Result<Self, ParseError>)
        ensures
            old(buffer).offset + HEADER_SIZE <= BUFFER_SIZE ==> {
                &&& r == Ok::<Self, ParseError>(
                    header_at(old(buffer).buffer@, old(buffer).offset as int),
                )
                &&& final(buffer).offset == old(buffer).offset + HEADER_SIZE
                &&& final(buffer).buffer == old(buffer).buffer
                &&& final(buffer).domains == old(buffer).domains
            },
            old(buffer).offset + HEADER_SIZE > BUFFER_SIZE ==> {
                &&& r == Err::<Self, ParseError>(ParseError::TruncatedHeader)
                &&& *final(buffer) == *old(buffer)
            },
    {
        if !buffer.remaining_bytes(HEADER_SIZE) {
            return Err(ParseError::TruncatedHeader);
        }
        let id: u16 = buffer.read_u16();
        let flags: DNSFlags = match DNSFlags::parse(buffer) {
            Ok(f) => f,
            Err(e) => {
                return Err(e);
            },
        };
        let questions_count: u16 = buffer.read_u16();
        let answers_count: u16 = buffer.read_u16();
        let authorities_count: u16 = buffer.read_u16();
        let additionals_count: u16 = buffer.read_u16();
        Ok(
            DNSHeader {
                id,
                flags,
                questions_count,
                answers_count,
                authorities_count,
                additionals_count,
            },
        )
    }

    /// Writes the header at the cursor, with the counts that it holds.
    /// Fails, and writes nothing, where fewer than twelve octets are left.
    pub fn write_to_buffer(&self, buffer: &mut DNSPacketBuffer) -> (r: Result<(), EncodeError>)
        ensures
            old(buffer).offset + HEADER_SIZE <= BUFFER_SIZE ==> {
                &&& r is Ok
                &&& final(buffer).buffer@ == splice(
                    old(buffer).buffer@,
                    old(buffer).offset as int,
                    header_bytes(*self),
                )
                &&& final(buffer).offset == old(buffer).offset + HEADER_SIZE
                &&& final(buffer).domains == old(buffer).domains
            },
            old(buffer).offset + HEADER_SIZE > BUFFER_SIZE ==> {
                &&& r == Err::<(), EncodeError>(EncodeError::TruncatedMessage)
                &&& *final(buffer) == *old(buffer)
            },
            grows(old(buffer)@, final(buffer)@),
    {
        if !buffer.remaining_bytes(HEADER_SIZE) {
            return Err(EncodeError::TruncatedMessage);
        }
        let flags: [u8; 2] = self.flags.to_u8();
        buffer.write_u16(self.id);
        buffer.write_bytes(flags.as_slice());
        buffer.write_u16(self.questions_count);
        buffer.write_u16(self.answers_count);
        buffer.write_u16(self.authorities_count);
        buffer.write_u16(self.additionals_count);
        assert(buffer.buffer@ =~= splice(
            old(buffer).buffer@,
            old(buffer).offset as int,
            header_bytes(*self),
        ));
        Ok(())
    }
}

} // verus!
