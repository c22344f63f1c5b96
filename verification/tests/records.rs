use dns_codec::structs::dns_packet_buffer::{DNSLabel, DNSPacketBuffer};
use dns_codec::structs::dns_record_types::DNSRecord;
use dns_codec::structs::dns_resource_record::DNSResourceRecord;
use dns_codec::structs::error::{EncodeError, ParseError};
use dns_codec::structs::record_types::a_record::ARecord;
use dns_codec::structs::record_types::aaaa_record::AAAARecord;
use dns_codec::structs::record_types::cname_record::CNAMERecord;
use dns_codec::structs::record_types::mx_record::MXRecord;
use dns_codec::structs::record_types::ns_record::NSRecord;
use dns_codec::structs::record_types::ptr_record::PTRRecord;
use dns_codec::structs::record_types::soa_record::SOARecord;
use dns_codec::structs::record_types::srv_record::SRVRecord;
use dns_codec::structs::record_types::txt_record::TXTRecord;

fn name(labels: &[&str]) -> Vec<DNSLabel> {
    labels.iter().map(|l| DNSLabel { value: l.as_bytes().to_vec(), offset: None }).collect()
}

fn values(labels: &[DNSLabel]) -> Vec<Vec<u8>> {
    labels.iter().map(|l| l.value.clone()).collect()
}

fn strs(labels: &[&str]) -> Vec<Vec<u8>> {
    labels.iter().map(|l| l.as_bytes().to_vec()).collect()
}

#[test]
fn a_record_type_code_is_one() {
    assert_eq!(ARecord::TYPE, 1);
}

#[test]
fn a_record_is_four_octets() {
    assert_eq!(ARecord::parse(4, &[127, 0, 0, 1]).unwrap(), ARecord([127, 0, 0, 1]));
    assert_eq!(ARecord::parse(4, &[1, 2, 3, 4, 5]).unwrap(), ARecord([1, 2, 3, 4]));
}

#[test]
fn a_record_of_another_length_is_a_mismatch() {
    assert_eq!(ARecord::parse(3, &[1, 2, 3]).unwrap_err(), ParseError::PayloadLengthMismatch);
    assert_eq!(ARecord::parse(5, &[1, 2, 3, 4, 5]).unwrap_err(), ParseError::PayloadLengthMismatch);
    assert_eq!(ARecord::parse(0, &[]).unwrap_err(), ParseError::PayloadLengthMismatch);
    assert_eq!(ARecord::parse(4, &[1, 2, 3]).unwrap_err(), ParseError::PayloadLengthMismatch);
}

#[test]
fn a_record_is_written_as_its_octets() {
    let mut buffer = DNSPacketBuffer::new([0u8; 512]);
    ARecord([10, 20, 30, 40]).write_to_buffer(&mut buffer).unwrap();
    assert_eq!(buffer.response_bytes(), &[10, 20, 30, 40]);
    buffer.offset = 509;
    assert_eq!(
        ARecord([1, 1, 1, 1]).write_to_buffer(&mut buffer).unwrap_err(),
        EncodeError::TruncatedMessage
    );
    assert_eq!(buffer.offset, 509);
    buffer.offset = 508;
    ARecord([1, 1, 1, 1]).write_to_buffer(&mut buffer).unwrap();
    assert_eq!(buffer.offset, 512);
}

#[test]
fn aaaa_record_is_sixteen_octets() {
    let octets: Vec<u8> = (1..=16).collect();
    let record = AAAARecord::parse(16, &octets).unwrap();
    assert_eq!(&record.0[..], &octets[..]);
    let mut buffer = DNSPacketBuffer::new([0u8; 512]);
    record.write_to_buffer(&mut buffer).unwrap();
    assert_eq!(buffer.response_bytes(), &octets[..]);
}

#[test]
fn aaaa_record_of_another_length_is_a_mismatch() {
    let octets = [0u8; 32];
    assert_eq!(AAAARecord::parse(15, &octets[..15]).unwrap_err(), ParseError::PayloadLengthMismatch);
    assert_eq!(AAAARecord::parse(17, &octets[..17]).unwrap_err(), ParseError::PayloadLengthMismatch);
    assert_eq!(AAAARecord::parse(4, &octets[..4]).unwrap_err(), ParseError::PayloadLengthMismatch);
    assert_eq!(AAAARecord::parse(16, &octets[..15]).unwrap_err(), ParseError::PayloadLengthMismatch);
    let mut buffer = DNSPacketBuffer::new([0u8; 512]);
    buffer.offset = 497;
    assert_eq!(
        AAAARecord([0u8; 16]).write_to_buffer(&mut buffer).unwrap_err(),
        EncodeError::TruncatedMessage
    );
}

#[test]
fn cname_is_a_name_that_fills_its_payload() {
    let mut buffer = DNSPacketBuffer::small(b"\x03foo\x03bar\x00\x77");
    let record = CNAMERecord::parse(9, &mut buffer).unwrap();
    assert_eq!(values(&record.0), strs(&["foo", "bar"]));
    assert_eq!(buffer.offset, 9);
}

#[test]
fn cname_pointer_is_followed_in_the_whole_buffer() {
    let mut buffer = DNSPacketBuffer::small(b"\x03bar\x00\x03foo\xC0\x00");
    buffer.offset = 5;
    let record = CNAMERecord::parse(6, &mut buffer).unwrap();
    assert_eq!(values(&record.0), strs(&["foo", "bar"]));
    assert_eq!(buffer.offset, 11);
}

#[test]
fn cname_of_less_than_two_octets_is_a_mismatch() {
    let mut buffer = DNSPacketBuffer::small(&[0, 0]);
    assert_eq!(CNAMERecord::parse(1, &mut buffer).unwrap_err(), ParseError::PayloadLengthMismatch);
    assert_eq!(CNAMERecord::parse(0, &mut buffer).unwrap_err(), ParseError::PayloadLengthMismatch);
    assert_eq!(buffer.offset, 0);
}

#[test]
fn name_that_ends_before_or_behind_its_payload_is_a_mismatch() {
    let mut buffer = DNSPacketBuffer::small(b"\x03foo\x00\x00\x00");
    assert_eq!(CNAMERecord::parse(6, &mut buffer).unwrap_err(), ParseError::PayloadLengthMismatch);
    assert_eq!(CNAMERecord::parse(4, &mut buffer).unwrap_err(), ParseError::PayloadLengthMismatch);
    assert_eq!(buffer.offset, 0);
    assert!(CNAMERecord::parse(5, &mut buffer).is_ok());
}

#[test]
fn name_payload_beyond_the_buffer_is_a_mismatch() {
    let mut buffer = DNSPacketBuffer::new([0u8; 512]);
    buffer.offset = 510;
    assert_eq!(NSRecord::parse(3, &mut buffer).unwrap_err(), ParseError::PayloadLengthMismatch);
    assert_eq!(buffer.offset, 510);
}

#[test]
fn name_payload_passes_on_the_error_of_its_name() {
    let mut buffer = DNSPacketBuffer::small(&[0xC0, 0x00]);
    assert_eq!(PTRRecord::parse(2, &mut buffer).unwrap_err(), ParseError::CompressionLoopExceeded);
    assert_eq!(buffer.offset, 0);
}

#[test]
fn ns_may_be_the_root() {
    let mut buffer = DNSPacketBuffer::small(&[0, 9]);
    let record = NSRecord::parse(1, &mut buffer).unwrap();
    assert!(record.0.is_empty());
    assert_eq!(buffer.offset, 1);
}

#[test]
fn ptr_is_a_name_of_at_least_two_octets() {
    let mut buffer = DNSPacketBuffer::small(b"\x01x\x00");
    let record = PTRRecord::parse(3, &mut buffer).unwrap();
    assert_eq!(values(&record.0), strs(&["x"]));
    let mut buffer = DNSPacketBuffer::small(&[0]);
    assert_eq!(PTRRecord::parse(1, &mut buffer).unwrap_err(), ParseError::PayloadLengthMismatch);
}

#[test]
fn name_records_are_written_compressed() {
    let mut buffer = DNSPacketBuffer::new([0u8; 512]);
    CNAMERecord(name(&["a", "b"])).write_to_buffer(&mut buffer).unwrap();
    NSRecord(name(&["a", "b"])).write_to_buffer(&mut buffer).unwrap();
    PTRRecord(name(&["c", "b"])).write_to_buffer(&mut buffer).unwrap();
    assert_eq!(buffer.response_bytes(), b"\x01a\x01b\x00\xC0\x00\x01c\xC0\x02");
}

#[test]
fn mx_is_a_preference_and_a_name() {
    let mut buffer = DNSPacketBuffer::small(b"\x00\x0A\x04mail\x00\x55");
    let record = MXRecord::parse(8, &mut buffer).unwrap();
    assert_eq!(record.preference, 10);
    assert_eq!(values(&record.mail_exchange), strs(&["mail"]));
    assert_eq!(buffer.offset, 8);
}

#[test]
fn mx_with_a_wrong_length_is_a_mismatch() {
    let mut buffer = DNSPacketBuffer::small(b"\x00\x0A\x04mail\x00\x55");
    assert_eq!(MXRecord::parse(2, &mut buffer).unwrap_err(), ParseError::PayloadLengthMismatch);
    assert_eq!(MXRecord::parse(7, &mut buffer).unwrap_err(), ParseError::PayloadLengthMismatch);
    assert_eq!(MXRecord::parse(9, &mut buffer).unwrap_err(), ParseError::PayloadLengthMismatch);
    assert_eq!(buffer.offset, 0);
    buffer.offset = 510;
    assert_eq!(MXRecord::parse(3, &mut buffer).unwrap_err(), ParseError::PayloadLengthMismatch);
}

#[test]
fn mx_is_written_as_preference_and_name() {
    let mut buffer = DNSPacketBuffer::new([0u8; 512]);
    MXRecord { preference: 0x0102, mail_exchange: name(&["mx"]) }.write_to_buffer(&mut buffer).unwrap();
    assert_eq!(buffer.response_bytes(), b"\x01\x02\x02mx\x00");
    buffer.offset = 511;
    assert_eq!(
        MXRecord { preference: 1, mail_exchange: name(&[]) }.write_to_buffer(&mut buffer).unwrap_err(),
        EncodeError::TruncatedMessage
    );
    buffer.offset = 510;
    assert_eq!(
        MXRecord { preference: 1, mail_exchange: name(&[]) }.write_to_buffer(&mut buffer).unwrap_err(),
        EncodeError::TruncatedMessage
    );
    buffer.offset = 509;
    MXRecord { preference: 1, mail_exchange: name(&[]) }.write_to_buffer(&mut buffer).unwrap();
    assert_eq!(buffer.offset, 512);
}

#[test]
fn srv_is_three_numbers_and_a_name() {
    let mut buffer = DNSPacketBuffer::small(b"\x00\x01\x00\x02\x1F\x90\x03sip\x00");
    let record = SRVRecord::parse(11, &mut buffer).unwrap();
    assert_eq!((record.priority, record.weight, record.port), (1, 2, 8080));
    assert_eq!(values(&record.target), strs(&["sip"]));
    assert_eq!(buffer.offset, 11);
    let mut out = DNSPacketBuffer::new([0u8; 512]);
    record.write_to_buffer(&mut out).unwrap();
    assert_eq!(out.response_bytes(), b"\x00\x01\x00\x02\x1F\x90\x03sip\x00");
}

#[test]
fn srv_of_less_than_seven_octets_is_a_mismatch() {
    let mut buffer = DNSPacketBuffer::small(b"\x00\x01\x00\x02\x1F\x90\x00");
    assert_eq!(SRVRecord::parse(6, &mut buffer).unwrap_err(), ParseError::PayloadLengthMismatch);
    assert_eq!(buffer.offset, 0);
    let record = SRVRecord::parse(7, &mut buffer).unwrap();
    assert!(record.target.is_empty());
    buffer.offset = 0;
    assert_eq!(SRVRecord::parse(8, &mut buffer).unwrap_err(), ParseError::PayloadLengthMismatch);
    let mut out = DNSPacketBuffer::new([0u8; 512]);
    out.offset = 507;
    assert_eq!(record.write_to_buffer(&mut out).unwrap_err(), EncodeError::TruncatedMessage);
}

fn soa_payload() -> Vec<u8> {
    let mut bytes = b"\x02ns\x00\x04root\x00".to_vec();
    bytes.extend_from_slice(&[0, 0, 0, 1, 0, 0, 0, 2, 0, 0, 0, 3, 0, 0, 0, 4, 0xFF, 0xFF, 0xFF, 0xFF]);
    bytes
}

#[test]
fn soa_is_two_names_and_five_numbers() {
    let bytes = soa_payload();
    let mut buffer = DNSPacketBuffer::small(&bytes);
    let record = SOARecord::parse(bytes.len(), &mut buffer).unwrap();
    assert_eq!(values(&record.primary_ns), strs(&["ns"]));
    assert_eq!(values(&record.responsible_email), strs(&["root"]));
    assert_eq!(
        (record.serial, record.refresh, record.retry, record.expire, record.minimum_ttl),
        (1, 2, 3, 4, 0xFFFFFFFF)
    );
    assert_eq!(buffer.offset, bytes.len());
    let mut out = DNSPacketBuffer::new([0u8; 512]);
    record.write_to_buffer(&mut out).unwrap();
    assert_eq!(out.response_bytes(), &bytes[..]);
}

#[test]
fn soa_of_the_least_length() {
    let mut bytes = vec![0u8, 0u8];
    bytes.extend_from_slice(&[9u8; 20]);
    let mut buffer = DNSPacketBuffer::small(&bytes);
    let record = SOARecord::parse(22, &mut buffer).unwrap();
    assert!(record.primary_ns.is_empty() && record.responsible_email.is_empty());
    assert_eq!(record.serial, 0x09090909);
    buffer.offset = 0;
    assert_eq!(SOARecord::parse(21, &mut buffer).unwrap_err(), ParseError::PayloadLengthMismatch);
    assert_eq!(SOARecord::parse(23, &mut buffer).unwrap_err(), ParseError::PayloadLengthMismatch);
    assert_eq!(buffer.offset, 0);
}

#[test]
fn soa_passes_on_the_error_of_its_second_name() {
    let mut bytes = vec![0u8, 0xC0, 0x01];
    bytes.extend_from_slice(&[0u8; 20]);
    let mut buffer = DNSPacketBuffer::small(&bytes);
    assert_eq!(SOARecord::parse(23, &mut buffer).unwrap_err(), ParseError::CompressionLoopExceeded);
    assert_eq!(buffer.offset, 0);
}

#[test]
fn soa_write_fails_without_room_for_the_numbers() {
    let record = SOARecord {
        primary_ns: name(&["a"]),
        responsible_email: name(&["a"]),
        serial: 1,
        refresh: 2,
        retry: 3,
        expire: 4,
        minimum_ttl: 5,
    };
    let mut out = DNSPacketBuffer::new([0u8; 512]);
    out.offset = 488;
    assert_eq!(record.write_to_buffer(&mut out).unwrap_err(), EncodeError::TruncatedMessage);
    let mut out = DNSPacketBuffer::new([0u8; 512]);
    out.offset = 487;
    record.write_to_buffer(&mut out).unwrap();
    assert_eq!(&out.buffer[487..492], b"\x01a\x00\xC1\xE7");
    assert_eq!(out.offset, 512);
}

#[test]
fn txt_is_one_or_more_character_strings() {
    let mut buffer = DNSPacketBuffer::small(b"\x02hi\x00\x03abc\x77");
    let record = TXTRecord::parse(8, &mut buffer).unwrap();
    assert_eq!(record.0, vec![b"hi".to_vec(), Vec::new(), b"abc".to_vec()]);
    assert_eq!(buffer.offset, 8);
    let mut out = DNSPacketBuffer::new([0u8; 512]);
    record.write_to_buffer(&mut out).unwrap();
    assert_eq!(out.response_bytes(), b"\x02hi\x00\x03abc");
}

#[test]
fn txt_whose_strings_do_not_fill_the_payload_is_a_mismatch() {
    let mut buffer = DNSPacketBuffer::small(b"\x02hi\x05abc");
    assert_eq!(TXTRecord::parse(7, &mut buffer).unwrap_err(), ParseError::PayloadLengthMismatch);
    assert_eq!(TXTRecord::parse(2, &mut buffer).unwrap_err(), ParseError::PayloadLengthMismatch);
    assert_eq!(TXTRecord::parse(1, &mut buffer).unwrap_err(), ParseError::PayloadLengthMismatch);
    assert_eq!(TXTRecord::parse(0, &mut buffer).unwrap_err(), ParseError::PayloadLengthMismatch);
    assert_eq!(buffer.offset, 0);
    assert_eq!(TXTRecord::parse(3, &mut buffer).unwrap().0, vec![b"hi".to_vec()]);
    buffer.offset = 511;
    assert_eq!(TXTRecord::parse(2, &mut buffer).unwrap_err(), ParseError::PayloadLengthMismatch);
}

#[test]
fn txt_string_of_256_octets_is_too_long() {
    let mut out = DNSPacketBuffer::new([0u8; 512]);
    assert_eq!(
        TXTRecord(vec![vec![b'x'; 256]]).write_to_buffer(&mut out).unwrap_err(),
        EncodeError::NameTooLong
    );
    assert_eq!(out.offset, 0);
    TXTRecord(vec![vec![b'x'; 255]]).write_to_buffer(&mut out).unwrap();
    assert_eq!(out.offset, 256);
    assert_eq!(out.buffer[0], 255);
    assert_eq!(
        TXTRecord(vec![vec![b'x'; 255], vec![b'y'; 10]]).write_to_buffer(&mut out).unwrap_err(),
        EncodeError::TruncatedMessage
    );
    assert_eq!(out.offset, 256);
}

#[test]
fn payload_is_read_by_the_rule_of_its_type() {
    let mut buffer = DNSPacketBuffer::small(&[1, 2, 3, 4]);
    assert!(matches!(
        DNSRecord::parse_dns_record_data(1, 4, &mut buffer).unwrap(),
        DNSRecord::A(ARecord([1, 2, 3, 4]))
    ));
    assert_eq!(buffer.offset, 4);
    let mut buffer = DNSPacketBuffer::small(&[7u8; 16]);
    assert!(matches!(
        DNSRecord::parse_dns_record_data(28, 16, &mut buffer).unwrap(),
        DNSRecord::AAAA(AAAARecord(o)) if o == [7u8; 16]
    ));
    let types: [(u16, &[u8]); 7] = [
        (5, b"\x01a\x00"),
        (2, b"\x01a\x00"),
        (12, b"\x01a\x00"),
        (15, b"\x00\x01\x01a\x00"),
        (33, b"\x00\x01\x00\x02\x00\x03\x01a\x00"),
        (16, b"\x02ab"),
        (6, b"\x00\x00aaaabbbbccccddddeeee"),
    ];
    for (code, bytes) in types {
        let mut buffer = DNSPacketBuffer::small(bytes);
        let record = DNSRecord::parse_dns_record_data(code, bytes.len(), &mut buffer).unwrap();
        assert_eq!(buffer.offset, bytes.len());
        let fits = match (code, &record) {
            (5, DNSRecord::CNAME(_)) => true,
            (2, DNSRecord::NS(_)) => true,
            (12, DNSRecord::PTR(_)) => true,
            (15, DNSRecord::MX(_)) => true,
            (33, DNSRecord::SRV(_)) => true,
            (16, DNSRecord::TXT(_)) => true,
            (6, DNSRecord::SOA(_)) => true,
            _ => false,
        };
        assert!(fits);
        let mut out = DNSPacketBuffer::new([0u8; 512]);
        record.write_to_bytes(&mut out).unwrap();
        assert_eq!(out.response_bytes(), bytes);
    }
}

#[test]
fn payload_of_a_wrong_length_is_a_mismatch() {
    for (code, length) in [(1u16, 3usize), (1, 5), (28, 4), (28, 17), (5, 1), (12, 0), (15, 2), (33, 6), (6, 21), (16, 1)] {
        let mut buffer = DNSPacketBuffer::new([0u8; 512]);
        buffer.offset = 10;
        assert_eq!(
            DNSRecord::parse_dns_record_data(code, length, &mut buffer).unwrap_err(),
            ParseError::PayloadLengthMismatch
        );
        assert_eq!(buffer.offset, 10);
    }
}

#[test]
fn payload_longer_than_what_is_left_is_a_mismatch() {
    for code in [1u16, 28, 5, 2, 12, 15, 33, 6, 16, 9999] {
        let mut buffer = DNSPacketBuffer::new([0u8; 512]);
        buffer.offset = 500;
        assert_eq!(
            DNSRecord::parse_dns_record_data(code, 13, &mut buffer).unwrap_err(),
            ParseError::PayloadLengthMismatch
        );
        assert_eq!(buffer.offset, 500);
    }
}

#[test]
fn unknown_type_keeps_its_octets() {
    let mut buffer = DNSPacketBuffer::small(&[0xDE, 0xAD, 0xBE, 0xEF, 0x01, 0x99]);
    let record = DNSRecord::parse_dns_record_data(9999, 5, &mut buffer).unwrap();
    assert_eq!(buffer.offset, 5);
    match &record {
        DNSRecord::Unknown { record_type, data_length, raw_data } => {
            assert_eq!(*record_type, 9999);
            assert_eq!(*data_length, 5);
            assert_eq!(raw_data, &vec![0xDE, 0xAD, 0xBE, 0xEF, 0x01]);
        }
        _ => panic!("not kept as unknown"),
    }
    let mut out = DNSPacketBuffer::new([0u8; 512]);
    record.write_to_bytes(&mut out).unwrap();
    assert_eq!(out.response_bytes(), &[0xDE, 0xAD, 0xBE, 0xEF, 0x01]);
}

#[test]
fn unknown_payload_may_be_empty() {
    let mut buffer = DNSPacketBuffer::new([0u8; 512]);
    buffer.offset = 512;
    let record = DNSRecord::parse_dns_record_data(0, 0, &mut buffer).unwrap();
    assert!(matches!(&record, DNSRecord::Unknown { record_type: 0, data_length: 0, raw_data } if raw_data.is_empty()));
    assert_eq!(
        DNSRecord::Unknown { record_type: 3, data_length: 1, raw_data: vec![1] }
            .write_to_bytes(&mut buffer)
            .unwrap_err(),
        EncodeError::TruncatedMessage
    );
}

#[test]
fn record_with_unknown_type_is_read_and_written_back() {
    let mut bytes = b"\x03foo\x00".to_vec();
    bytes.extend_from_slice(&[0x27, 0x0F, 0x00, 0x01, 0x00, 0x00, 0x0E, 0x10, 0x00, 0x05]);
    bytes.extend_from_slice(&[1, 2, 3, 4, 5]);
    let mut buffer = DNSPacketBuffer::small(&bytes);
    let record = DNSResourceRecord::parse(&mut buffer).unwrap();
    assert_eq!(buffer.offset, bytes.len());
    assert_eq!(values(&record.name), strs(&["foo"]));
    assert_eq!((record.rtype, record.class, record.ttl, record.rdlength), (9999, 1, 3600, 5));
    assert!(matches!(&record.data, DNSRecord::Unknown { record_type: 9999, data_length: 5, raw_data } if raw_data == &vec![1, 2, 3, 4, 5]));
    let mut out = DNSPacketBuffer::new([0u8; 512]);
    record.write_to_buffer(&mut out).unwrap();
    assert_eq!(out.response_bytes(), &bytes[..]);
}

#[test]
fn new_record_is_empty() {
    let record = DNSResourceRecord::new();
    assert!(record.name.is_empty());
    assert_eq!((record.rtype, record.class, record.ttl, record.rdlength), (1, 0, 0, 0));
    assert!(matches!(&record.data, DNSRecord::Unknown { record_type: 0, data_length: 0, raw_data } if raw_data.is_empty()));
}

#[test]
fn record_is_built_field_by_field() {
    let record = DNSResourceRecord::new()
        .push_name_label(String::from("www"))
        .push_name_label(String::from("google"))
        .rtype(15)
        .class(3)
        .ttl(0xFFFFFFFF)
        .rdlength(9)
        .data(DNSRecord::A(ARecord([1, 2, 3, 4])));
    assert_eq!(values(&record.name), strs(&["www", "google"]));
    assert!(record.name.iter().all(|l| l.offset.is_none()));
    assert_eq!((record.rtype, record.class, record.ttl, record.rdlength), (15, 3, 0xFFFFFFFF, 9));
    assert!(matches!(record.data, DNSRecord::A(ARecord([1, 2, 3, 4]))));
}

#[test]
fn label_of_a_record_is_the_utf8_form_of_the_text() {
    let record = DNSResourceRecord::new().push_name_label(String::from("é"));
    assert_eq!(record.name[0].value, vec![0xC3, 0xA9]);
}

#[test]
fn record_is_written_with_the_length_of_its_payload() {
    let record = DNSResourceRecord::new()
        .push_name_label(String::from("a"))
        .rtype(1)
        .class(1)
        .ttl(50)
        .rdlength(999)
        .data(DNSRecord::A(ARecord([127, 0, 0, 1])));
    let mut out = DNSPacketBuffer::new([0u8; 512]);
    record.write_to_buffer(&mut out).unwrap();
    assert_eq!(out.response_bytes(), b"\x01a\x00\x00\x01\x00\x01\x00\x00\x00\x32\x00\x04\x7F\x00\x00\x01");
}

#[test]
fn payload_length_counts_a_pointer_as_two_octets() {
    let record = DNSResourceRecord::new()
        .push_name_label(String::from("alias"))
        .push_name_label(String::from("x"))
        .rtype(5)
        .class(1)
        .data(DNSRecord::CNAME(CNAMERecord(name(&["real", "x"]))));
    let mut out = DNSPacketBuffer::new([0u8; 512]);
    record.write_to_buffer(&mut out).unwrap();
    let expected = b"\x05alias\x01x\x00\x00\x05\x00\x01\x00\x00\x00\x00\x00\x07\x04real\xC0\x06";
    assert_eq!(out.response_bytes(), &expected[..]);
    out.offset = 0;
    let back = DNSResourceRecord::parse(&mut out).unwrap();
    assert_eq!(back.rdlength, 7);
    assert!(matches!(&back.data, DNSRecord::CNAME(CNAMERecord(n)) if values(n) == strs(&["real", "x"])));
    assert_eq!(out.offset, expected.len());
}

#[test]
fn a_record_with_a_wrong_length_fails_the_record() {
    let mut bytes = b"\x01a\x00\x00\x01\x00\x01\x00\x00\x00\x32\x00\x05".to_vec();
    bytes.extend_from_slice(&[1, 2, 3, 4, 5]);
    let mut buffer = DNSPacketBuffer::small(&bytes);
    assert_eq!(DNSResourceRecord::parse(&mut buffer).unwrap_err(), ParseError::PayloadLengthMismatch);
    assert_eq!(buffer.offset, 0);
    bytes[12] = 3;
    let mut buffer = DNSPacketBuffer::small(&bytes);
    assert_eq!(DNSResourceRecord::parse(&mut buffer).unwrap_err(), ParseError::PayloadLengthMismatch);
}

#[test]
fn aaaa_record_with_a_wrong_length_fails_the_record() {
    let mut bytes = b"\x01a\x00\x00\x1C\x00\x01\x00\x00\x00\x32\x00\x04".to_vec();
    bytes.extend_from_slice(&[1, 2, 3, 4]);
    let mut buffer = DNSPacketBuffer::small(&bytes);
    assert_eq!(DNSResourceRecord::parse(&mut buffer).unwrap_err(), ParseError::PayloadLengthMismatch);
}

#[test]
fn record_cut_in_its_fixed_fields_is_truncated() {
    let mut raw = [0u8; 512];
    raw[501] = 1;
    raw[502] = b'a';
    let mut buffer = DNSPacketBuffer::new(raw);
    buffer.offset = 501;
    assert_eq!(DNSResourceRecord::parse(&mut buffer).unwrap_err(), ParseError::TruncatedMessage);
    assert_eq!(buffer.offset, 501);
}

#[test]
fn record_with_a_payload_beyond_the_buffer_is_a_mismatch() {
    let mut raw = [0u8; 512];
    raw[499] = 0;
    raw[500] = 0x27;
    raw[509] = 3;
    let mut buffer = DNSPacketBuffer::new(raw);
    buffer.offset = 499;
    assert_eq!(DNSResourceRecord::parse(&mut buffer).unwrap_err(), ParseError::PayloadLengthMismatch);
    raw[509] = 2;
    let mut buffer = DNSPacketBuffer::new(raw);
    buffer.offset = 499;
    assert!(DNSResourceRecord::parse(&mut buffer).is_ok());
    assert_eq!(buffer.offset, 512);
}

#[test]
fn records_are_read_one_behind_the_other() {
    let one = b"\x01a\x00\x00\x01\x00\x01\x00\x00\x00\x01\x00\x04\x01\x02\x03\x04";
    let mut bytes = one.to_vec();
    bytes.extend_from_slice(b"\xC0\x00\x00\x02\x00\x01\x00\x00\x00\x02\x00\x02\xC0\x00");
    let mut buffer = DNSPacketBuffer::small(&bytes);
    let records = DNSResourceRecord::parse_multiple(2, &mut buffer).unwrap();
    assert_eq!(records.len(), 2);
    assert_eq!(records[1].rtype, 2);
    assert_eq!(values(&records[1].name), strs(&["a"]));
    assert!(matches!(&records[1].data, DNSRecord::NS(NSRecord(n)) if values(n) == strs(&["a"])));
    assert_eq!(buffer.offset, bytes.len());
    buffer.offset = 0;
    assert!(DNSResourceRecord::parse_multiple(0, &mut buffer).unwrap().is_empty());
    assert_eq!(buffer.offset, 0);
    // the third record is a run of zeros: the root, type 0, no payload
    assert_eq!(DNSResourceRecord::parse_multiple(3, &mut buffer).unwrap().len(), 3);
    buffer.offset = 0;
    buffer.buffer[bytes.len()] = 0xC0;
    buffer.buffer[bytes.len() + 1] = bytes.len() as u8;
    assert_eq!(
        DNSResourceRecord::parse_multiple(3, &mut buffer).unwrap_err(),
        ParseError::CompressionLoopExceeded
    );
    assert_eq!(buffer.offset, 0);
}

#[test]
fn record_write_fails_without_room_for_the_fixed_fields() {
    let record = DNSResourceRecord::new().data(DNSRecord::A(ARecord([1, 2, 3, 4])));
    let mut out = DNSPacketBuffer::new([0u8; 512]);
    out.offset = 502;
    assert_eq!(record.write_to_buffer(&mut out).unwrap_err(), EncodeError::TruncatedMessage);
    out.offset = 498;
    assert_eq!(record.write_to_buffer(&mut out).unwrap_err(), EncodeError::TruncatedMessage);
    out.offset = 497;
    record.write_to_buffer(&mut out).unwrap();
    assert_eq!(out.offset, 512);
    assert_eq!(&out.buffer[506..508], &[0, 4]);
}

#[test]
fn clones_of_records_hold_the_same() {
    let record = DNSResourceRecord::new()
        .push_name_label(String::from("n"))
        .rtype(6)
        .data(DNSRecord::SOA(SOARecord {
            primary_ns: name(&["p"]),
            responsible_email: name(&["q", "r"]),
            serial: 1,
            refresh: 2,
            retry: 3,
            expire: 4,
            minimum_ttl: 5,
        }));
    let copy = record.clone();
    let mut a = DNSPacketBuffer::new([0u8; 512]);
    let mut b = DNSPacketBuffer::new([0u8; 512]);
    record.write_to_buffer(&mut a).unwrap();
    copy.write_to_buffer(&mut b).unwrap();
    assert_eq!(a.response_bytes(), b.response_bytes());
    let all = vec![
        DNSRecord::A(ARecord([1, 2, 3, 4])),
        DNSRecord::AAAA(AAAARecord([3u8; 16])),
        DNSRecord::CNAME(CNAMERecord(name(&["c"]))),
        DNSRecord::NS(NSRecord(name(&["n"]))),
        DNSRecord::PTR(PTRRecord(name(&["p"]))),
        DNSRecord::MX(MXRecord { preference: 5, mail_exchange: name(&["m"]) }),
        DNSRecord::SRV(SRVRecord { priority: 1, weight: 2, port: 3, target: name(&["t"]) }),
        DNSRecord::TXT(TXTRecord(vec![b"one".to_vec(), b"two".to_vec()])),
        DNSRecord::Unknown { record_type: 77, data_length: 2, raw_data: vec![8, 9] },
    ];
    for data in all {
        let mut a = DNSPacketBuffer::new([0u8; 512]);
        let mut b = DNSPacketBuffer::new([0u8; 512]);
        data.write_to_bytes(&mut a).unwrap();
        data.clone().write_to_bytes(&mut b).unwrap();
        assert!(a.offset > 0);
        assert_eq!(a.response_bytes(), b.response_bytes());
    }
}
