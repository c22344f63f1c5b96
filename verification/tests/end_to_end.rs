use dns_codec::structs::dns_header::DNSHeader;
use dns_codec::structs::dns_flags::DNSFlags;
use dns_codec::structs::dns_packet::DNSPacket;
use dns_codec::structs::dns_packet_buffer::DNSPacketBuffer;
use dns_codec::structs::dns_question::DNSQuestion;

fn query_bytes() -> Vec<u8> {
    let mut bytes: Vec<u8> = vec![0x12, 0x34, 0x01, 0x00, 0x00, 0x01, 0, 0, 0, 0, 0, 0];
    bytes.push(7);
    bytes.extend_from_slice(b"example");
    bytes.push(3);
    bytes.extend_from_slice(b"com");
    bytes.push(0);
    bytes.extend_from_slice(&[0, 1, 0, 1]);
    bytes
}

#[test]
fn query_for_example_com_decodes_and_encodes_back() {
    let bytes = query_bytes();
    let mut datagram = [0u8; 512];
    datagram[..bytes.len()].copy_from_slice(&bytes);
    let packet = DNSPacket::parse(datagram).unwrap();
    assert_eq!(packet.header.id, 0x1234);
    assert_eq!(packet.header.questions_count, 1);
    assert_eq!(packet.header.answers_count, 0);
    assert_eq!(packet.header.authorities_count, 0);
    assert_eq!(packet.header.additionals_count, 0);
    assert_eq!(packet.questions.len(), 1);
    let q = &packet.questions[0];
    assert_eq!(q.qname.len(), 2);
    assert_eq!(q.qname[0].value, b"example".to_vec());
    assert_eq!(q.qname[1].value, b"com".to_vec());
    assert_eq!(q.qname[0].offset, None);
    assert_eq!(q.qtype, 1);
    assert_eq!(q.qclass, 1);
    let mut out = DNSPacketBuffer::new([0u8; 512]);
    packet.write_to_buffer(&mut out).unwrap();
    assert_eq!(out.response_bytes(), &bytes[..]);
}

#[test]
fn query_built_by_hand_encodes_to_the_same_octets() {
    let mut packet = DNSPacket::new();
    packet.header = DNSHeader {
        id: 0x1234,
        flags: DNSFlags { rd: true, ..DNSFlags::new() },
        questions_count: 1,
        answers_count: 0,
        authorities_count: 0,
        additionals_count: 0,
    };
    packet.push_questions(DNSQuestion::from_simple_string("example.com", 1, 1));
    let mut out = DNSPacketBuffer::new([0u8; 512]);
    packet.write_to_buffer(&mut out).unwrap();
    assert_eq!(out.response_bytes(), &query_bytes()[..]);
}
