use dns_codec::structs::dns_packet_buffer::{
    copy_labels, same_octets, shared_suffix, DNSLabel, DNSPacketBuffer,
};
use dns_codec::structs::error::{EncodeError, ParseError};

fn name(labels: &[&str]) -> Vec<DNSLabel> {
    labels.iter().map(|l| DNSLabel { value: l.as_bytes().to_vec(), offset: None }).collect()
}

fn values(labels: &[DNSLabel]) -> Vec<Vec<u8>> {
    labels.iter().map(|l| l.value.clone()).collect()
}

fn strs(labels: &[&str]) -> Vec<Vec<u8>> {
    labels.iter().map(|l| l.as_bytes().to_vec()).collect()
}

#[test]
fn parse_labels_reads_plain_labels() {
    let mut buffer = DNSPacketBuffer::small(b"\x03www\x07example\x03com\x00\xAA");
    let labels = buffer.parse_labels().unwrap();
    assert_eq!(values(&labels), strs(&["www", "example", "com"]));
    assert!(labels.iter().all(|l| l.offset.is_none()));
    assert_eq!(buffer.offset, 17);
}

#[test]
fn parse_labels_reads_the_root() {
    let mut buffer = DNSPacketBuffer::small(&[0, 1, 2]);
    assert!(buffer.parse_labels().unwrap().is_empty());
    assert_eq!(buffer.offset, 1);
}

#[test]
fn parse_labels_follows_a_pointer_and_resumes_behind_it() {
    // 0: "example.com", 13: "www" + pointer to 0, 19: marker
    let mut bytes = b"\x07example\x03com\x00".to_vec();
    bytes.extend_from_slice(b"\x03www\xC0\x00\x55");
    let mut buffer = DNSPacketBuffer::small(&bytes);
    buffer.offset = 13;
    let labels = buffer.parse_labels().unwrap();
    assert_eq!(values(&labels), strs(&["www", "example", "com"]));
    assert_eq!(buffer.offset, 19);
    assert_eq!(buffer.buffer[buffer.offset], 0x55);
}

#[test]
fn parse_labels_resumes_behind_the_first_pointer_of_a_chain() {
    // 0: "com", 5: "example" + ptr 0, 15: ptr 5
    let mut bytes = b"\x03com\x00".to_vec();
    bytes.extend_from_slice(b"\x07example\xC0\x00");
    bytes.extend_from_slice(&[0xC0, 0x05]);
    let mut buffer = DNSPacketBuffer::small(&bytes);
    buffer.offset = 15;
    let labels = buffer.parse_labels().unwrap();
    assert_eq!(values(&labels), strs(&["example", "com"]));
    assert_eq!(buffer.offset, 17);
}

#[test]
fn parse_labels_uses_all_14_bits_of_a_pointer() {
    let mut raw = [0u8; 512];
    raw[0] = 0xC1;
    raw[1] = 0x02;
    raw[0x102] = 1;
    raw[0x103] = b'x';
    let mut buffer = DNSPacketBuffer::new(raw);
    let labels = buffer.parse_labels().unwrap();
    assert_eq!(values(&labels), strs(&["x"]));
    assert_eq!(buffer.offset, 2);
}

#[test]
fn pointer_to_itself_exceeds_the_hop_limit() {
    let mut buffer = DNSPacketBuffer::small(&[0xC0, 0x00]);
    assert_eq!(buffer.parse_labels().unwrap_err(), ParseError::CompressionLoopExceeded);
    assert_eq!(buffer.offset, 0);
}

#[test]
fn pointers_in_a_ring_exceed_the_hop_limit() {
    // 0 -> 4, 4: "a" then -> 8, 8 -> 0
    let mut buffer = DNSPacketBuffer::small(&[0xC0, 4, 0, 0, 1, b'a', 0xC0, 8, 0xC0, 0]);
    assert_eq!(buffer.parse_labels().unwrap_err(), ParseError::CompressionLoopExceeded);
}

fn chain(hops: usize) -> Vec<u8> {
    // "z" at 0, then pointers each to the one before
    let mut bytes = vec![1, b'z', 0];
    for i in 0..hops {
        let target: usize = if i == 0 { 0 } else { 3 + 2 * (i - 1) };
        bytes.push(0xC0);
        bytes.push(target as u8);
    }
    bytes
}

#[test]
fn ten_hops_are_followed() {
    let bytes = chain(10);
    let mut buffer = DNSPacketBuffer::small(&bytes);
    buffer.offset = bytes.len() - 2;
    let labels = buffer.parse_labels().unwrap();
    assert_eq!(values(&labels), strs(&["z"]));
    assert_eq!(buffer.offset, bytes.len());
}

#[test]
fn eleven_hops_are_not_followed() {
    let bytes = chain(11);
    let mut buffer = DNSPacketBuffer::small(&bytes);
    buffer.offset = bytes.len() - 2;
    assert_eq!(buffer.parse_labels().unwrap_err(), ParseError::CompressionLoopExceeded);
    assert_eq!(buffer.offset, bytes.len() - 2);
}

#[test]
fn label_that_runs_past_the_end_is_truncated() {
    let mut raw = [b'a'; 512];
    raw[500] = 20;
    let mut buffer = DNSPacketBuffer::new(raw);
    buffer.offset = 500;
    assert_eq!(buffer.parse_labels().unwrap_err(), ParseError::TruncatedMessage);
    assert_eq!(buffer.offset, 500);
}

#[test]
fn name_without_end_is_truncated() {
    let mut raw = [0u8; 512];
    for i in 0..256 {
        raw[2 * i] = 1;
        raw[2 * i + 1] = b'a';
    }
    let mut buffer = DNSPacketBuffer::new(raw);
    assert_eq!(buffer.parse_labels().unwrap_err(), ParseError::TruncatedMessage);
}

#[test]
fn pointer_cut_by_the_end_is_truncated() {
    let mut raw = [0u8; 512];
    raw[511] = 0xC0;
    let mut buffer = DNSPacketBuffer::new(raw);
    buffer.offset = 511;
    assert_eq!(buffer.parse_labels().unwrap_err(), ParseError::TruncatedMessage);
}

#[test]
fn pointer_beyond_the_buffer_is_truncated() {
    let mut buffer = DNSPacketBuffer::small(&[0xFF, 0xFF]);
    assert_eq!(buffer.parse_labels().unwrap_err(), ParseError::TruncatedMessage);
}

#[test]
fn cursor_beyond_the_buffer_is_truncated() {
    let mut buffer = DNSPacketBuffer::new([0u8; 512]);
    buffer.offset = 512;
    assert_eq!(buffer.parse_labels().unwrap_err(), ParseError::TruncatedMessage);
    buffer.offset = 9999;
    assert_eq!(buffer.parse_labels().unwrap_err(), ParseError::TruncatedMessage);
}

#[test]
fn label_of_63_octets_is_read() {
    let mut bytes = vec![63u8];
    bytes.extend_from_slice(&[b'q'; 63]);
    bytes.push(0);
    let mut buffer = DNSPacketBuffer::small(&bytes);
    let labels = buffer.parse_labels().unwrap();
    assert_eq!(labels.len(), 1);
    assert_eq!(labels[0].value, vec![b'q'; 63]);
    assert_eq!(buffer.offset, 65);
}

#[test]
fn labels_are_opaque_octets() {
    let mut buffer = DNSPacketBuffer::small(&[3, 0x00, 0xFF, 0x2E, 0]);
    let labels = buffer.parse_labels().unwrap();
    assert_eq!(labels[0].value, vec![0x00, 0xFF, 0x2E]);
}

#[test]
fn first_name_is_written_out_and_kept() {
    let mut buffer = DNSPacketBuffer::new([0u8; 512]);
    buffer.offset = 12;
    buffer.push_labels(&name(&["example", "com"])).unwrap();
    assert_eq!(&buffer.buffer[12..25], b"\x07example\x03com\x00");
    assert_eq!(buffer.offset, 25);
    assert_eq!(buffer.domains.len(), 1);
    assert_eq!(values(&buffer.domains[0]), strs(&["example", "com"]));
    assert_eq!(buffer.domains[0][0].offset, Some(12));
    assert_eq!(buffer.domains[0][1].offset, Some(20));
}

#[test]
fn same_name_again_is_a_pointer() {
    let mut buffer = DNSPacketBuffer::new([0u8; 512]);
    buffer.offset = 12;
    buffer.push_labels(&name(&["example", "com"])).unwrap();
    buffer.push_labels(&name(&["example", "com"])).unwrap();
    assert_eq!(&buffer.buffer[25..27], &[0xC0, 12]);
    assert_eq!(buffer.offset, 27);
    assert_eq!(buffer.domains.len(), 1);
    buffer.offset = 25;
    let labels = buffer.parse_labels().unwrap();
    assert_eq!(values(&labels), strs(&["example", "com"]));
    assert_eq!(buffer.offset, 27);
}

#[test]
fn shared_tail_becomes_a_pointer_behind_the_new_labels() {
    let mut buffer = DNSPacketBuffer::new([0u8; 512]);
    buffer.push_labels(&name(&["example", "com"])).unwrap();
    buffer.push_labels(&name(&["www", "example", "com"])).unwrap();
    assert_eq!(&buffer.buffer[13..19], b"\x03www\xC0\x00");
    assert_eq!(buffer.offset, 19);
    assert_eq!(buffer.domains.len(), 2);
    assert_eq!(values(&buffer.domains[1]), strs(&["www", "example", "com"]));
    assert_eq!(buffer.domains[1][0].offset, Some(13));
    assert_eq!(buffer.domains[1][1].offset, Some(0));
    assert_eq!(buffer.domains[1][2].offset, Some(8));
}

#[test]
fn pointer_may_point_into_the_middle_of_a_name() {
    let mut buffer = DNSPacketBuffer::new([0u8; 512]);
    buffer.push_labels(&name(&["www", "example", "com"])).unwrap();
    buffer.push_labels(&name(&["mail", "example", "com"])).unwrap();
    assert_eq!(&buffer.buffer[17..24], b"\x04mail\xC0\x04");
    buffer.push_labels(&name(&["com"])).unwrap();
    assert_eq!(&buffer.buffer[24..26], &[0xC0, 12]);
    assert_eq!(buffer.domains.len(), 2);
}

#[test]
fn name_kept_from_a_partial_match_is_found_whole_later() {
    let mut buffer = DNSPacketBuffer::new([0u8; 512]);
    buffer.push_labels(&name(&["example", "com"])).unwrap();
    buffer.push_labels(&name(&["www", "example", "com"])).unwrap();
    let at = buffer.offset;
    buffer.push_labels(&name(&["www", "example", "com"])).unwrap();
    assert_eq!(&buffer.buffer[at..at + 2], &[0xC0, 13]);
    buffer.offset = at;
    let labels = buffer.parse_labels().unwrap();
    assert_eq!(values(&labels), strs(&["www", "example", "com"]));
}

#[test]
fn run_of_labels_must_reach_the_end_of_both_names() {
    let mut buffer = DNSPacketBuffer::new([0u8; 512]);
    buffer.push_labels(&name(&["example", "com"])).unwrap();
    // shares "example" but not the last label: written out
    buffer.push_labels(&name(&["example", "org"])).unwrap();
    assert_eq!(&buffer.buffer[13..26], b"\x07example\x03org\x00");
    // different label in the middle: only "com" is shared
    buffer.push_labels(&name(&["a", "sample", "com"])).unwrap();
    assert_eq!(&buffer.buffer[26..37], b"\x01a\x06sample\xC0\x08");
}

#[test]
fn first_of_two_equal_matches_is_taken() {
    let mut buffer = DNSPacketBuffer::new([0u8; 512]);
    buffer.domains.push(vec![DNSLabel { value: b"com".to_vec(), offset: Some(40) }]);
    buffer.domains.push(vec![DNSLabel { value: b"com".to_vec(), offset: Some(50) }]);
    buffer.offset = 60;
    buffer.push_labels(&name(&["com"])).unwrap();
    assert_eq!(&buffer.buffer[60..62], &[0xC0, 40]);
}

#[test]
fn written_label_without_offset_is_no_target() {
    let mut buffer = DNSPacketBuffer::new([0u8; 512]);
    buffer.domains.push(vec![DNSLabel { value: b"com".to_vec(), offset: None }]);
    buffer.push_labels(&name(&["com"])).unwrap();
    assert_eq!(&buffer.buffer[0..5], b"\x03com\x00");
}

#[test]
fn root_is_one_zero_octet_and_is_not_kept() {
    let mut buffer = DNSPacketBuffer::new([7u8; 512]);
    buffer.push_labels(&name(&[])).unwrap();
    assert_eq!(buffer.response_bytes(), &[0]);
    assert!(buffer.domains.is_empty());
}

#[test]
fn pointer_offset_above_255_uses_both_octets() {
    let mut buffer = DNSPacketBuffer::new([0u8; 512]);
    buffer.offset = 300;
    buffer.push_labels(&name(&["x"])).unwrap();
    buffer.push_labels(&name(&["x"])).unwrap();
    assert_eq!(&buffer.buffer[303..305], &[0xC1, 0x2C]);
}

#[test]
fn label_of_64_octets_is_too_long() {
    let long = DNSLabel { value: vec![b'a'; 64], offset: None };
    let mut buffer = DNSPacketBuffer::new([0u8; 512]);
    buffer.offset = 3;
    assert_eq!(buffer.push_labels(&vec![long]).unwrap_err(), EncodeError::NameTooLong);
    assert_eq!(buffer.offset, 3);
    assert_eq!(buffer.buffer, [0u8; 512]);
    assert!(buffer.domains.is_empty());
    let fits = DNSLabel { value: vec![b'a'; 63], offset: None };
    buffer.push_labels(&vec![fits]).unwrap();
    assert_eq!(buffer.offset, 3 + 65);
}

#[test]
fn too_long_label_is_told_before_lack_of_room() {
    let long = DNSLabel { value: vec![b'a'; 64], offset: None };
    let mut buffer = DNSPacketBuffer::new([0u8; 512]);
    buffer.offset = 510;
    assert_eq!(buffer.push_labels(&vec![long]).unwrap_err(), EncodeError::NameTooLong);
}

#[test]
fn offset_beyond_14_bits_cannot_be_pointed_at() {
    let mut buffer = DNSPacketBuffer::new([0u8; 512]);
    buffer.domains.push(vec![DNSLabel { value: b"com".to_vec(), offset: Some(0x4000) }]);
    assert_eq!(
        buffer.push_labels(&name(&["www", "com"])).unwrap_err(),
        EncodeError::NameTooLargeToCompress
    );
    assert_eq!(buffer.offset, 0);
    assert_eq!(buffer.domains.len(), 1);
    buffer.domains[0][0].offset = Some(0x3FFF);
    buffer.push_labels(&name(&["www", "com"])).unwrap();
    assert_eq!(buffer.response_bytes(), b"\x03www\xFF\xFF");
}

#[test]
fn name_that_does_not_fit_is_not_written() {
    let mut buffer = DNSPacketBuffer::new([0u8; 512]);
    buffer.offset = 500;
    // 13 octets are needed, 12 are left
    assert_eq!(
        buffer.push_labels(&name(&["example", "com"])).unwrap_err(),
        EncodeError::TruncatedMessage
    );
    assert_eq!(buffer.offset, 500);
    assert_eq!(buffer.buffer, [0u8; 512]);
    assert!(buffer.domains.is_empty());
    buffer.offset = 499;
    buffer.push_labels(&name(&["example", "com"])).unwrap();
    assert_eq!(buffer.offset, 512);
}

#[test]
fn pointer_that_does_not_fit_is_not_written() {
    let mut buffer = DNSPacketBuffer::new([0u8; 512]);
    buffer.push_labels(&name(&["a"])).unwrap();
    buffer.offset = 511;
    assert_eq!(buffer.push_labels(&name(&["a"])).unwrap_err(), EncodeError::TruncatedMessage);
    buffer.offset = 510;
    buffer.push_labels(&name(&["a"])).unwrap();
    assert_eq!(&buffer.buffer[510..512], &[0xC0, 0]);
}

#[test]
fn cursor_out_of_range_does_not_fit() {
    let mut buffer = DNSPacketBuffer::new([0u8; 512]);
    buffer.offset = 513;
    assert_eq!(buffer.push_labels(&name(&[])).unwrap_err(), EncodeError::TruncatedMessage);
    buffer.offset = usize::MAX;
    assert_eq!(buffer.push_labels(&name(&["a"])).unwrap_err(), EncodeError::TruncatedMessage);
}

#[test]
fn huge_name_does_not_fit() {
    let many: Vec<DNSLabel> = (0..400).map(|_| DNSLabel { value: vec![b'a'], offset: None }).collect();
    let mut buffer = DNSPacketBuffer::new([0u8; 512]);
    assert_eq!(buffer.push_labels(&many).unwrap_err(), EncodeError::TruncatedMessage);
}

#[test]
fn every_written_name_reads_back() {
    let names: Vec<Vec<DNSLabel>> = vec![
        name(&["example", "com"]),
        name(&["www", "example", "com"]),
        name(&["com"]),
        name(&["ftp", "www", "example", "com"]),
        name(&["example", "org"]),
        name(&[]),
        name(&["www", "example", "org"]),
        name(&["example", "com"]),
    ];
    let mut buffer = DNSPacketBuffer::new([0u8; 512]);
    let mut starts = Vec::new();
    for n in &names {
        starts.push(buffer.offset);
        buffer.push_labels(n).unwrap();
    }
    let end = buffer.offset;
    for (i, n) in names.iter().enumerate() {
        buffer.offset = starts[i];
        let back = buffer.parse_labels().unwrap();
        assert_eq!(values(&back), values(n));
        let next = if i + 1 < starts.len() { starts[i + 1] } else { end };
        assert_eq!(buffer.offset, next);
    }
}

#[test]
fn same_octets_compares_by_content() {
    assert!(same_octets(&vec![], &vec![]));
    assert!(same_octets(&vec![1, 2], &vec![1, 2]));
    assert!(!same_octets(&vec![1, 2], &vec![1, 3]));
    assert!(!same_octets(&vec![1, 2], &vec![1, 2, 3]));
}

#[test]
fn shared_suffix_counts_from_the_end() {
    let mut written = name(&["www", "example", "com"]);
    for (i, l) in written.iter_mut().enumerate() {
        l.offset = Some(i);
    }
    assert_eq!(shared_suffix(&written, &name(&["www", "example", "com"])), 3);
    assert_eq!(shared_suffix(&written, &name(&["example", "com"])), 2);
    assert_eq!(shared_suffix(&written, &name(&["a", "b", "www", "example", "com"])), 3);
    assert_eq!(shared_suffix(&written, &name(&["www", "sample", "com"])), 1);
    assert_eq!(shared_suffix(&written, &name(&["www", "example", "org"])), 0);
    assert_eq!(shared_suffix(&written, &name(&[])), 0);
    assert_eq!(shared_suffix(&name(&[]), &name(&["com"])), 0);
    written[1].offset = None;
    assert_eq!(shared_suffix(&written, &name(&["www", "example", "com"])), 1);
}

#[test]
fn copy_labels_copies_octets_and_offsets() {
    let mut labels = name(&["a", "bc"]);
    labels[1].offset = Some(77);
    let copy = copy_labels(&labels);
    assert_eq!(values(&copy), values(&labels));
    assert_eq!(copy[0].offset, None);
    assert_eq!(copy[1].offset, Some(77));
    let one = labels[1].clone();
    assert_eq!(one.value, b"bc".to_vec());
    assert_eq!(one.offset, Some(77));
}
