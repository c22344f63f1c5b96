use dns_codec::structs::dns_flags::DNSFlags;
use dns_codec::structs::dns_header::DNSHeader;
use dns_codec::structs::dns_packet::DNSPacket;
use dns_codec::structs::dns_packet_buffer::DNSPacketBuffer;
use dns_codec::structs::dns_question::DNSQuestion;
use dns_codec::structs::dns_resource_record::DNSResourceRecord;
use dns_codec::structs::error::{EncodeError, ParseError};

fn sample() -> DNSHeader {
    DNSHeader {
        id: 0xBEEF,
        flags: DNSFlags { qr: true, opcode: 2, aa: true, tc: false, rd: true, ra: false, z: 5, rcode: 3 },
        questions_count: 1,
        answers_count: 0x0203,
        authorities_count: 0xFFFF,
        additionals_count: 4,
    }
}

const SAMPLE_BYTES: [u8; 12] = [0xBE, 0xEF, 0x95, 0x53, 0, 1, 2, 3, 0xFF, 0xFF, 0, 4];

#[test]
fn header_is_written_as_twelve_octets() {
    let mut buffer = DNSPacketBuffer::new([0u8; 512]);
    sample().write_to_buffer(&mut buffer).unwrap();
    assert_eq!(buffer.response_bytes(), &SAMPLE_BYTES);
}

#[test]
fn header_is_read_from_twelve_octets() {
    let mut buffer = DNSPacketBuffer::small(&SAMPLE_BYTES);
    assert_eq!(DNSHeader::parse(&mut buffer).unwrap(), sample());
    assert_eq!(buffer.offset, 12);
}

#[test]
fn header_needs_twelve_octets_to_be_read() {
    let mut buffer = DNSPacketBuffer::new([1u8; 512]);
    buffer.offset = 501;
    assert_eq!(DNSHeader::parse(&mut buffer).unwrap_err(), ParseError::TruncatedHeader);
    assert_eq!(buffer.offset, 501);
    buffer.offset = 500;
    assert!(DNSHeader::parse(&mut buffer).is_ok());
    assert_eq!(buffer.offset, 512);
}

#[test]
fn header_needs_twelve_octets_to_be_written() {
    let mut buffer = DNSPacketBuffer::new([0u8; 512]);
    buffer.offset = 501;
    assert_eq!(sample().write_to_buffer(&mut buffer).unwrap_err(), EncodeError::TruncatedMessage);
    assert_eq!(buffer.offset, 501);
    assert_eq!(buffer.buffer, [0u8; 512]);
    buffer.offset = 500;
    sample().write_to_buffer(&mut buffer).unwrap();
    assert_eq!(&buffer.buffer[500..], &SAMPLE_BYTES);
}

#[test]
fn header_for_a_message_without_records_has_the_response_bit() {
    let mut packet = DNSPacket::new();
    packet.push_questions(DNSQuestion::from_simple_string("a.b", 1, 1));
    packet.push_questions(DNSQuestion::from_simple_string("c", 1, 1));
    let h = DNSHeader::from_dns_struct(&packet, 77);
    assert_eq!(
        h,
        DNSHeader {
            id: 77,
            flags: DNSFlags { qr: true, opcode: 0, aa: true, tc: false, rd: true, ra: true, z: 0, rcode: 0 },
            questions_count: 2,
            answers_count: 0,
            authorities_count: 0,
            additionals_count: 0,
        }
    );
}

#[test]
fn header_for_a_message_with_records_has_no_response_bit() {
    let mut packet = DNSPacket::new();
    packet.push_answers(DNSResourceRecord::new());
    assert!(!DNSHeader::from_dns_struct(&packet, 1).flags.qr);
    assert_eq!(DNSHeader::from_dns_struct(&packet, 1).answers_count, 1);
    let mut packet = DNSPacket::new();
    packet.push_authorities(DNSResourceRecord::new());
    packet.push_authorities(DNSResourceRecord::new());
    assert!(!DNSHeader::from_dns_struct(&packet, 1).flags.qr);
    assert_eq!(DNSHeader::from_dns_struct(&packet, 1).authorities_count, 2);
    let mut packet = DNSPacket::new();
    packet.push_additionals(DNSResourceRecord::new());
    let h = DNSHeader::from_dns_struct(&packet, 0xFFFF);
    assert!(!h.flags.qr);
    assert_eq!(h.additionals_count, 1);
    assert_eq!(h.id, 0xFFFF);
    assert!(h.flags.aa && h.flags.rd && h.flags.ra && !h.flags.tc);
}
