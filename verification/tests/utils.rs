use dns_codec::structs::dns_flags::DNSFlags;
use dns_codec::structs::dns_header::DNSHeader;
use dns_codec::structs::dns_packet::DNSPacket;
use dns_codec::structs::dns_packet_buffer::{DNSLabel, DNSPacketBuffer};
use dns_codec::structs::dns_question::DNSQuestion;
use dns_codec::structs::dns_record_types::DNSRecord;
use dns_codec::structs::record_types::a_record::ARecord;
use dns_codec::utils::{
    contains_domain, hex_line_text, hex_lines, split_labels, temp_dns_packet, ToDNSLabels,
};

fn name(labels: &[&str]) -> Vec<DNSLabel> {
    labels.iter().map(|l| DNSLabel { value: l.as_bytes().to_vec(), offset: None }).collect()
}

fn values(labels: &[DNSLabel]) -> Vec<Vec<u8>> {
    labels.iter().map(|l| l.value.clone()).collect()
}

fn strs(labels: &[&str]) -> Vec<Vec<u8>> {
    labels.iter().map(|l| l.as_bytes().to_vec()).collect()
}

#[test]
fn contains_domain_compares_from_the_end() {
    let www = name(&["www", "example", "com"]);
    assert!(contains_domain(&www, &name(&["www", "example", "com"]), 3));
    assert!(contains_domain(&www, &name(&["example", "com"]), 2));
    assert!(contains_domain(&www, &name(&["com"]), 1));
    assert!(contains_domain(&www, &name(&["com"]), 0));
    assert!(contains_domain(&www, &name(&[]), 0));
    assert!(!contains_domain(&www, &name(&["org"]), 1));
    assert!(!contains_domain(&www, &name(&["ww", "example", "com"]), 3));
    assert!(!contains_domain(&www, &name(&["a", "www", "example", "com"]), 4));
    assert!(!contains_domain(&name(&[]), &name(&["com"]), 1));
    assert!(contains_domain(&name(&[]), &name(&[]), 0));
}

#[test]
fn contains_domain_takes_the_first_labels_of_the_domain() {
    let www = name(&["www", "example", "com"]);
    // the first two labels of the domain are "example", "com"
    assert!(contains_domain(&www, &name(&["example", "com", "junk"]), 2));
    assert!(!contains_domain(&www, &name(&["example", "com", "junk"]), 3));
}

#[test]
fn text_is_split_at_its_dots() {
    assert_eq!(values(&"google.com".to_dns_labels()), strs(&["google", "com"]));
    assert_eq!(values(&String::from("a.b.c").to_dns_labels()), strs(&["a", "b", "c"]));
    assert_eq!(values(&"single".to_dns_labels()), strs(&["single"]));
    assert_eq!(values(&"".to_dns_labels()), strs(&[""]));
    assert_eq!(values(&".".to_dns_labels()), strs(&["", ""]));
    assert_eq!(values(&"a.".to_dns_labels()), strs(&["a", ""]));
    assert_eq!(values(&".a".to_dns_labels()), strs(&["", "a"]));
    assert_eq!(values(&String::from("a..b").to_dns_labels()), strs(&["a", "", "b"]));
    assert!("x.y".to_dns_labels().iter().all(|l| l.offset.is_none()));
}

#[test]
fn text_is_split_as_utf8() {
    let labels = "bücher.example".to_dns_labels();
    assert_eq!(labels[0].value, "bücher".as_bytes().to_vec());
    assert_eq!(labels[0].value.len(), 7);
    assert_eq!(values(&split_labels(&[0xFF, 0x2E, 0x00])), vec![vec![0xFF], vec![0x00]]);
}

#[test]
fn split_labels_agree_with_split_of_the_standard_library() {
    for text in ["", "a", "a.b", "..", "a..b.", ".x.", "www.example.com", "1.2.3.4.5.6"] {
        let want: Vec<Vec<u8>> = text.split('.').map(|p| p.as_bytes().to_vec()).collect();
        assert_eq!(values(&text.to_dns_labels()), want);
        assert_eq!(values(&DNSQuestion::from_simple_string(text, 1, 1).qname), want);
    }
}

#[test]
fn local_answer_for_a_question() {
    let header = DNSHeader {
        id: 0x4242,
        flags: DNSFlags::new(),
        questions_count: 1,
        answers_count: 0,
        authorities_count: 0,
        additionals_count: 0,
    };
    let packet = temp_dns_packet(header, vec![DNSQuestion::from_simple_string("www.google.com", 1, 1)]);
    assert_eq!(packet.header.id, 0x4242);
    assert_eq!(
        packet.header.flags,
        DNSFlags { qr: false, opcode: 0, aa: true, tc: false, rd: true, ra: true, z: 0, rcode: 0 }
    );
    assert_eq!(
        (
            packet.header.questions_count,
            packet.header.answers_count,
            packet.header.authorities_count,
            packet.header.additionals_count
        ),
        (1, 1, 0, 0)
    );
    assert_eq!(packet.questions.len(), 1);
    assert_eq!(packet.answers.len(), 1);
    let answer = &packet.answers[0];
    assert_eq!(values(&answer.name), strs(&["www", "google", "com"]));
    assert_eq!((answer.rtype, answer.class, answer.ttl, answer.rdlength), (1, 1, 50, 4));
    assert!(matches!(answer.data, DNSRecord::A(ARecord([127, 0, 0, 1]))));
    let mut buffer = DNSPacketBuffer::new([0u8; 512]);
    packet.write_to_buffer(&mut buffer).unwrap();
    let mut want = vec![0x42, 0x42, 0x05, 0x80, 0, 1, 0, 1, 0, 0, 0, 0];
    want.extend_from_slice(b"\x03www\x06google\x03com\x00\x00\x01\x00\x01");
    want.extend_from_slice(b"\xC0\x0C\x00\x01\x00\x01\x00\x00\x00\x32\x00\x04\x7F\x00\x00\x01");
    assert_eq!(buffer.response_bytes(), &want[..]);
    let back = DNSPacket::parse(buffer.buffer).unwrap();
    assert_eq!(back.header, packet.header);
    assert_eq!(values(&back.answers[0].name), strs(&["www", "google", "com"]));
}

#[test]
fn local_answer_without_questions() {
    let header = DNSHeader {
        id: 1,
        flags: DNSFlags::new(),
        questions_count: 5,
        answers_count: 5,
        authorities_count: 5,
        additionals_count: 5,
    };
    let packet = temp_dns_packet(header, Vec::new());
    assert_eq!(packet.header.questions_count, 0);
    assert_eq!(packet.header.answers_count, 1);
    assert_eq!(packet.header.authorities_count, 0);
}

#[test]
fn dump_lines_have_sixteen_octets() {
    assert!(hex_lines(&[]).is_empty());
    assert_eq!(hex_lines(&[1, 2, 3]), vec![vec![1, 2, 3]]);
    let data: Vec<u8> = (0..40).collect();
    let lines = hex_lines(&data);
    assert_eq!(lines.len(), 3);
    assert_eq!(lines[0], (0..16).collect::<Vec<u8>>());
    assert_eq!(lines[1], (16..32).collect::<Vec<u8>>());
    assert_eq!(lines[2], (32..40).collect::<Vec<u8>>());
    assert_eq!(hex_lines(&data[..32]).len(), 2);
    assert_eq!(hex_lines(&data[..16]).len(), 1);
    assert_eq!(hex_lines(&data[..17])[1], vec![16]);
    let chunks: Vec<Vec<u8>> = data.chunks(16).map(|c| c.to_vec()).collect();
    assert_eq!(lines, chunks);
}

#[test]
fn dump_line_is_digits_then_characters() {
    let text = hex_line_text(&vec![0x00, 0x41, 0x7E, 0x7F, 0x20, 0x21, 0xFF, 0x0A]);
    let want = format!("00 41 7E 7F 20 21 FF 0A {}.A~..!..", "00 ".repeat(8));
    assert_eq!(String::from_utf8(text).unwrap(), want);
    assert_eq!(String::from_utf8(hex_line_text(&vec![])).unwrap(), "00 ".repeat(16));
    let full: Vec<u8> = b"0123456789abcdef".to_vec();
    let text = String::from_utf8(hex_line_text(&full)).unwrap();
    assert_eq!(text, "30 31 32 33 34 35 36 37 38 39 61 62 63 64 65 66 0123456789abcdef");
}

#[test]
fn dump_line_agrees_with_formatting() {
    for seed in 0..16u8 {
        let line: Vec<u8> = (0..seed).map(|i| i.wrapping_mul(37).wrapping_add(seed.wrapping_mul(91))).collect();
        let mut want = String::new();
        for b in &line {
            want.push_str(&format!("{:02X} ", b));
        }
        for _ in 0..16 - line.len() {
            want.push_str(&format!("{:02X} ", 0));
        }
        for b in &line {
            if b.is_ascii_graphic() {
                want.push(*b as char);
            } else {
                want.push('.');
            }
        }
        assert_eq!(String::from_utf8(hex_line_text(&line)).unwrap(), want);
    }
}
