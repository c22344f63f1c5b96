//! Names as dotted text, comparison of names from their last label, the
//! answer that is given from here, and dumps of octets.

use vstd::prelude::*;
use vstd::string::StringSliceAdditionalSpecFns;
use vstd::utf8::encode_utf8;
use crate::structs::dns_header::{header_for, DNSHeader};
use crate::structs::dns_packet::DNSPacket;
use crate::structs::dns_packet_buffer::{label_values, same_octets, DNSLabel, LabelView};
use crate::structs::dns_question::DNSQuestion;
use crate::structs::dns_record_types::{DNSRecord, RecordDataView};
use crate::structs::dns_resource_record::{DNSResourceRecord, RecordView};
use crate::structs::record_types::a_record::ARecord;

verus! {

/// Whether the name `labels` ends with the first `n` labels of `domain`,
/// label for label: `labels` is that name, or a name below it.
pub open spec fn ends_with(labels: Seq<Seq<u8>>, domain: Seq<Seq<u8>>, n: int) -> bool {
    n <= labels.len() && forall|i: int|
        0 <= i < n ==> #[trigger] labels[labels.len() - 1 - i] == domain[n - 1 - i]
}

/// Whether the name `lables` ends with the first `domain_size` labels of
/// `domain`. The labels are compared from the last one backwards, by their
/// octets; offsets are not looked at.
pub fn contains_domain(lables: &Vec<DNSLabel>, domain: &Vec<DNSLabel>, domain_size: usize) -> (r:
    bool)
    requires
        domain_size <= domain@.len(),
    ensures
        r == ends_with(
            label_values(lables.deep_view()),
            label_values(domain.deep_view()),
            domain_size as int,
        ),
{
    if domain_size > lables.len() {
        return false;
    }
    let ghost have = label_values(lables.deep_view());
    let ghost want = label_values(domain.deep_view());
    let mut i: usize = 0;
    while i < domain_size
        invariant
            i <= domain_size <= domain@.len(),
            domain_size <= lables@.len(),
            have == label_values(lables.deep_view()),
            want == label_values(domain.deep_view()),
            forall|k: int| 0 <= k < i ==> #[trigger] have[have.len() - 1 - k] == want[domain_size - 1 - k],
        decreases domain_size - i,
    {
        if !same_octets(&lables[lables.len() - 1 - i].value, &domain[domain_size - 1 - i].value) {
            assert(have[have.len() - 1 - i] != want[domain_size - 1 - i]);
            return false;
        }
        i += 1;
    }
    true
}

/// The labels that `text` holds between its dots, each as the octets of
/// its UTF-8 form.
pub open spec fn split_dots(text: Seq<u8>) -> Seq<Seq<u8>>
    decreases text.len(),
{
    if text.len() == 0 {
        seq![Seq::empty()]
    } else {
        let before = split_dots(text.drop_last());
        if text.last() == 0x2E {
            before.push(Seq::empty())
        } else {
            before.drop_last().push(before.last().push(text.last()))
        }
    }
}

/// The labels of `text`, split at each dot (octet `0x2E`), without offsets.
/// A text without a dot is one label; two dots in a row, or a dot at either
/// end, give an empty label.
pub fn split_labels(text: &[u8]) -> (labels: Vec<DNSLabel>)
    ensures
        label_values(labels.deep_view()) == split_dots(text@),
        forall|i: int| 0 <= i < labels@.len() ==> (#[trigger] labels@[i]).offset is None,
{
    let mut labels: Vec<DNSLabel> = Vec::new();
    let mut current: Vec<u8> = Vec::new();
    let mut i: usize = 0;
    assert(text@.take(0) =~= Seq::empty());
    assert(label_values(labels.deep_view()).push(current@) =~= split_dots(text@.take(0)));
    while i < text.len()
        invariant
            i <= text@.len(),
            label_values(labels.deep_view()).push(current@) == split_dots(text@.take(i as int)),
            forall|k: int| 0 <= k < labels@.len() ==> (#[trigger] labels@[k]).offset is None,
        decreases text@.len() - i,
    {
        let ghost done = label_values(labels.deep_view());
        let ghost word = current@;
        proof {
            assert(text@.take(i + 1).drop_last() =~= text@.take(i as int));
            assert(text@.take(i + 1).last() == text@[i as int]);
        }
        if text[i] == 0x2E {
            labels.push(DNSLabel { value: current, offset: None });
            current = Vec::new();
            assert(label_values(labels.deep_view()) =~= done.push(word));
        } else {
            current.push(text[i]);
            assert(done.push(word).drop_last() =~= done);
            assert(done.push(current@) =~= done.push(word).drop_last().push(
                done.push(word).last().push(text@[i as int]),
            ));
        }
        i += 1;
    }
    assert(text@.take(i as int) =~= text@);
    let ghost done = label_values(labels.deep_view());
    labels.push(DNSLabel { value: current, offset: None });
    assert(label_values(labels.deep_view()) =~= done.push(current@));
    labels
}

/// Things that can be read as a dotted domain name.
pub trait ToDNSLabels {
    /// The octets that are split into labels.
    spec fn dotted(&self) -> Seq<u8>;

    /// The labels between the dots, without offsets.
    fn to_dns_labels(&self) -> (labels: Vec<DNSLabel>)
        ensures
            label_values(labels.deep_view()) == split_dots(self.dotted()),
            forall|i: int| 0 <= i < labels@.len() ==> (#[trigger] labels@[i]).offset is None,
    ;
}

impl ToDNSLabels for String {
    open spec fn dotted(&self) -> Seq<u8> {
        vstd::utf8::encode_utf8(self@)
    }

    fn to_dns_labels(&self) -> (labels: Vec<DNSLabel>) {
        split_labels(self.as_str().as_bytes())
    }
}

impl ToDNSLabels for &str {
    open spec fn dotted(&self) -> Seq<u8> {
        self.spec_bytes()
    }

    fn to_dns_labels(&self) -> (labels: Vec<DNSLabel>) {
        split_labels(self.as_bytes())
    }
}

/// The answer that `temp_dns_packet` gives: `www.google.com` is at
/// 127.0.0.1, in class 1, for 50 seconds.
pub open spec fn local_answer() -> RecordView {
    RecordView {
        name: seq![
            LabelView { value: encode_utf8("www"@), offset: None },
            LabelView { value: encode_utf8("google"@), offset: None },
            LabelView { value: encode_utf8("com"@), offset: None },
        ],
        rtype: 1,
        class: 1,
        ttl: 50,
        rdlength: 4,
        data: RecordDataView::A(seq![127u8, 0u8, 0u8, 1u8]),
    }
}

/// A message that answers `questions` from here: the questions as they
/// are, the one answer `local_answer()`, and a header made for them under
/// the id of `header`.
pub fn temp_dns_packet(header: DNSHeader, questions: Vec<DNSQuestion>) -> (r: DNSPacket)
    requires
        questions@.len() <= 0xFFFF,
    ensures
        r@.questions == questions.deep_view(),
        r@.answers == seq![local_answer()],
        r@.authorities.len() == 0,
        r@.additionals.len() == 0,
        r@.header == header_for(r@, header.id),
{
    let mut packet = DNSPacket::new();
    packet.questions = questions;
    let answers = DNSResourceRecord::new().push_name_label("www".to_owned()).push_name_label(
        "google".to_owned(),
    ).push_name_label("com".to_owned()).rtype(ARecord::TYPE).ttl(50).class(1).rdlength(4).data(
        DNSRecord::A(ARecord([127, 0, 0, 1])),
    );
    assert(answers@.name =~= local_answer().name);
    assert(answers@.data->A_0 =~= seq![127u8, 0u8, 0u8, 1u8]);
    packet.push_answers(answers);
    assert(packet@.answers =~= seq![local_answer()]);
    packet.header = DNSHeader::from_dns_struct(&packet, header.id);
    packet
}

/// The lines of a dump of `data`: 16 octets each, but for the last one,
/// which has what is left.
pub fn hex_lines(data: &[u8]) -> (lines: Vec<Vec<u8>>)
    ensures
        lines@.len() == (data@.len() + 15) / 16,
        forall|i: int|
            0 <= i < lines@.len() ==> (#[trigger] lines@[i])@ == data@.subrange(
                16 * i,
                if 16 * i + 16 <= data@.len() {
                    16 * i + 16
                } else {
                    data@.len() as int
                },
            ),
{
    let mut lines: Vec<Vec<u8>> = Vec::new();
    let mut at: usize = 0;
    while at < data.len()
        invariant_except_break
            at <= data@.len(),
            at % 16 == 0,
            lines@.len() == at / 16,
            forall|i: int|
                0 <= i < lines@.len() ==> (#[trigger] lines@[i])@ == data@.subrange(
                    16 * i,
                    16 * i + 16,
                ),
        ensures
            at == data@.len(),
            lines@.len() == (data@.len() + 15) / 16,
            forall|i: int|
                0 <= i < lines@.len() ==> (#[trigger] lines@[i])@ == data@.subrange(
                    16 * i,
                    if 16 * i + 16 <= data@.len() {
                        16 * i + 16
                    } else {
                        data@.len() as int
                    },
                ),
        decreases data@.len() - at,
    {
        let end: usize = if data.len() - at >= 16 {
            at + 16
        } else {
            data.len()
        };
        lines.push(vstd::slice::slice_to_vec(vstd::slice::slice_subrange(data, at, end)));
        if end == data.len() {
            at = end;
            break;
        }
        at = end;
    }
    lines
}

/// The character for the hexadecimal digit `n`, in upper case.
pub open spec fn hex_digit(n: u8) -> u8 {
    if n < 10 {
        (0x30 + n) as u8
    } else {
        (0x41 + n - 10) as u8
    }
}

/// The text of one line of a dump, as ASCII: sixteen times two digits and
/// a blank, for the octets of `line` and for `00` where the line is short;
/// then each octet of `line` as the character it is, or as a dot where it
/// is not printable.
pub open spec fn hex_text(line: Seq<u8>) -> Seq<u8> {
    Seq::new(
        48 + line.len(),
        |i: int|
            if i < 48 {
                let octet = if i / 3 < line.len() {
                    line[i / 3]
                } else {
                    0u8
                };
                if i % 3 == 0 {
                    hex_digit(octet / 16)
                } else if i % 3 == 1 {
                    hex_digit(octet % 16)
                } else {
                    0x20u8
                }
            } else if 0x21 <= line[i - 48] <= 0x7E {
                line[i - 48]
            } else {
                0x2Eu8
            },
    )
}

/// The character for the hexadecimal digit `n`, in upper case.
fn hex_char(n: u8) -> (c: u8)
    requires
        n < 16,
    ensures
        c == hex_digit(n),
{
    if n < 10 {
        0x30 + n
    } else {
        0x41 + (n - 10)
    }
}

/// The text of one line of a dump of at most 16 octets.
pub fn hex_line_text(line: &Vec<u8>) -> (text: Vec<u8>)
    requires
        line@.len() <= 16,
    ensures
        text@ == hex_text(line@),
{
    let mut text: Vec<u8> = Vec::new();
    let mut i: usize = 0;
    while i < 16
        invariant
            i <= 16,
            line@.len() <= 16,
            text@.len() == 3 * i,
            forall|k: int| 0 <= k < 3 * i ==> #[trigger] text@[k] == hex_text(line@)[k],
        decreases 16 - i,
    {
        let octet: u8 = if i < line.len() {
            line[i]
        } else {
            0
        };
        text.push(hex_char(octet / 16));
        text.push(hex_char(octet % 16));
        text.push(0x20);
        i += 1;
    }
    let mut j: usize = 0;
    while j < line.len()
        invariant
            j <= line@.len() <= 16,
            text@.len() == 48 + j,
            forall|k: int| 0 <= k < 48 + j ==> #[trigger] text@[k] == hex_text(line@)[k],
        decreases line@.len() - j,
    {
        let octet: u8 = line[j];
        if 0x21 <= octet && octet <= 0x7E {
            text.push(octet);
        } else {
            text.push(0x2E);
        }
        j += 1;
    }
    assert(text@ =~= hex_text(line@));
    text
}

} // verus!
