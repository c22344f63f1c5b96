use dns_codec::structs::dns_flags::DNSFlags;
use dns_codec::structs::dns_packet_buffer::DNSPacketBuffer;
use dns_codec::structs::error::ParseError;

fn parse_word(hi: u8, lo: u8) -> DNSFlags {
    let mut buffer = DNSPacketBuffer::small(&[hi, lo]);
    let flags = DNSFlags::parse(&mut buffer).unwrap();
    assert_eq!(buffer.offset, 2);
    flags
}

#[test]
fn new_flags_are_all_clear() {
    let f = DNSFlags::new();
    assert_eq!(
        f,
        DNSFlags { qr: false, opcode: 0, aa: false, tc: false, rd: false, ra: false, z: 0, rcode: 0 }
    );
    assert_eq!(f.to_u8(), [0, 0]);
}

#[test]
fn each_bit_has_its_field() {
    assert!(parse_word(0x80, 0).qr);
    assert_eq!(parse_word(0x78, 0).opcode, 15);
    assert_eq!(parse_word(0x08, 0).opcode, 1);
    assert!(parse_word(0x04, 0).aa);
    assert!(parse_word(0x02, 0).tc);
    assert!(parse_word(0x01, 0).rd);
    assert!(parse_word(0, 0x80).ra);
    assert!(!parse_word(0, 0x08).ra);
    assert_eq!(parse_word(0, 0x70).z, 7);
    assert_eq!(parse_word(0, 0x10).z, 1);
    assert_eq!(parse_word(0, 0x0F).rcode, 15);
    assert_eq!(parse_word(0, 0x08).rcode, 8);
}

#[test]
fn standard_response_word() {
    let f = parse_word(0x81, 0x80);
    assert_eq!(
        f,
        DNSFlags { qr: true, opcode: 0, aa: false, tc: false, rd: true, ra: true, z: 0, rcode: 0 }
    );
    assert_eq!(f.to_u8(), [0x81, 0x80]);
}

#[test]
fn every_flag_word_is_read_and_written_back() {
    for word in 0..=0xFFFFu32 {
        let hi = (word >> 8) as u8;
        let lo = (word & 0xFF) as u8;
        let f = parse_word(hi, lo);
        assert!(f.opcode < 16 && f.z < 8 && f.rcode < 16);
        assert_eq!(f.to_u8(), [hi, lo]);
    }
}

#[test]
fn every_flags_value_is_written_and_read_back() {
    let bools = [false, true];
    for qr in bools {
        for aa in bools {
            for tc in bools {
                for rd in bools {
                    for ra in bools {
                        for opcode in 0..16u8 {
                            for z in 0..8u8 {
                                for rcode in 0..16u8 {
                                    let f = DNSFlags { qr, opcode, aa, tc, rd, ra, z, rcode };
                                    let bits = f.to_u8();
                                    assert_eq!(parse_word(bits[0], bits[1]), f);
                                }
                            }
                        }
                    }
                }
            }
        }
    }
}

#[test]
fn fields_wider_than_their_bits_give_their_low_bits() {
    let f = DNSFlags { qr: false, opcode: 0x1F, aa: false, tc: false, rd: false, ra: false, z: 0x0F, rcode: 0xF3 };
    assert_eq!(f.to_u8(), [0x78, 0x73]);
}

#[test]
fn flags_need_two_octets() {
    let mut buffer = DNSPacketBuffer::new([0xFFu8; 512]);
    buffer.offset = 511;
    assert_eq!(DNSFlags::parse(&mut buffer).unwrap_err(), ParseError::TruncatedMessage);
    assert_eq!(buffer.offset, 511);
    buffer.offset = 510;
    assert!(DNSFlags::parse(&mut buffer).is_ok());
    assert_eq!(buffer.offset, 512);
}
