//! A whole message, decoded from a datagram and encoded into one.

use vstd::prelude::*;
use crate::names::{grows, lemma_grows_trans, put_bytes};
use crate::structs::dns_flags::DNSFlags;
use crate::structs::dns_header::{header_at, header_bytes, DNSHeader, HEADER_SIZE};
use crate::structs::dns_packet_buffer::{label_values, BufferView, DNSLabel, DNSPacketBuffer};
use crate::structs::dns_question::{decode_questions, push_question, DNSQuestion, QuestionView};
use crate::structs::dns_resource_record::{
    decode_records, push_record, DNSResourceRecord, RecordView,
};
use crate::structs::error::{EncodeError, ParseError};
use crate::utils::{contains_domain, ends_with};

verus! {

/// A whole message: the header and the four sections.
#[derive(Debug)]
pub struct DNSPacket {
    /// The fixed part: id, flags, and the number of entries of each section.
    pub header: DNSHeader,
    /// What is asked.
    pub questions: Vec<DNSQuestion>,
    /// Records that answer the questions.
    pub answers: Vec<DNSResourceRecord>,
    /// Records that name the servers in authority.
    pub authorities: Vec<DNSResourceRecord>,
    /// Records with further information.
    pub additionals: Vec<DNSResourceRecord>,
}

/// Mathematical content of a `DNSPacket`.
pub struct PacketView {
    pub header: DNSHeader,
    pub questions: Seq<QuestionView>,
    pub answers: Seq<RecordView>,
    pub authorities: Seq<RecordView>,
    pub additionals: Seq<RecordView>,
}

impl View for DNSPacket {
    type V = PacketView;

    open spec fn view(&self) -> PacketView {
        PacketView {
            header: self.header,
            questions: self.questions.deep_view(),
            answers: self.answers.deep_view(),
            authorities: self.authorities.deep_view(),
            additionals: self.additionals.deep_view(),
        }
    }
}

/// One of the three sections that hold resource records.
#[derive(Debug, Clone, Copy, PartialEq, Eq, Structural)]
pub enum PacketRecordType {
    Answer,
    Authority,
    Additional,
}

/// The message that a datagram holds: the header, then as many questions,
/// answers, authority records and additional records as the header counts,
/// in that order. The first field that cannot be read decides the error.
pub open spec fn decode_message(buf: Seq<u8>) -> Result<PacketView, ParseError> {
    if buf.len() < HEADER_SIZE {
        Err(ParseError::TruncatedHeader)
    } else {
        let header = header_at(buf, 0);
        match decode_questions(buf, HEADER_SIZE as int, header.questions_count as nat) {
            Err(e) => Err(e),
            Ok((questions, q_end)) => match decode_records(
                buf,
                q_end,
                header.answers_count as nat,
            ) {
                Err(e) => Err(e),
                Ok((answers, an_end)) => match decode_records(
                    buf,
                    an_end,
                    header.authorities_count as nat,
                ) {
                    Err(e) => Err(e),
                    Ok((authorities, ns_end)) => match decode_records(
                        buf,
                        ns_end,
                        header.additionals_count as nat,
                    ) {
                        Err(e) => Err(e),
                        Ok((additionals, _)) => Ok(
                            PacketView { header, questions, answers, authorities, additionals },
                        ),
                    },
                },
            },
        }
    }
}

/// Whether `r` is what decoding the datagram `packet` gives: the message
/// that it holds, or the error that stops the reading.
pub open spec fn decodes_to(packet: Seq<u8>, r: Result<DNSPacket, ParseError>) -> bool {
    match decode_message(packet) {
        Ok(m) => r matches Ok(message) && message@ == m,
        Err(e) => r == Err::<DNSPacket, ParseError>(e),
    }
}

/// Decoding is a function of the datagram: what it gives for a datagram
/// once, it gives for it again, the same message or the same error.
pub proof fn lemma_decode_again(
    packet: Seq<u8>,
    first: Result<DNSPacket, ParseError>,
    second: Result<DNSPacket, ParseError>,
)
    requires
        decodes_to(packet, first),
        decodes_to(packet, second),
    ensures
        match first {
            Ok(a) => second matches Ok(b) && a@ == b@,
            Err(e) => second == Err::<DNSPacket, ParseError>(e),
        },
{
}

/// The buffer after the questions `qs` are written at its cursor, one
/// behind the other. The first one that cannot be written decides the error.
pub open spec fn push_questions(s: BufferView, qs: Seq<QuestionView>) -> Result<
    BufferView,
    EncodeError,
>
    decreases qs.len(),
{
    if qs.len() == 0 {
        Ok(s)
    } else {
        match push_questions(s, qs.drop_last()) {
            Err(e) => Err(e),
            Ok(t) => push_question(t, qs.last()),
        }
    }
}

/// The buffer after the records `rs` are written at its cursor, one behind
/// the other. The first one that cannot be written decides the error.
pub open spec fn push_records(s: BufferView, rs: Seq<RecordView>) -> Result<
    BufferView,
    EncodeError,
>
    decreases rs.len(),
{
    if rs.len() == 0 {
        Ok(s)
    } else {
        match push_records(s, rs.drop_last()) {
            Err(e) => Err(e),
            Ok(t) => push_record(t, rs.last()),
        }
    }
}

/// Whether each section of `m` has no more entries than a 16-bit count
/// can tell.
pub open spec fn countable(m: PacketView) -> bool {
    m.questions.len() <= 0xFFFF && m.answers.len() <= 0xFFFF && m.authorities.len() <= 0xFFFF
        && m.additionals.len() <= 0xFFFF
}

/// The header that `m` is written with: its id and flags, and the counts
/// that its sections have.
pub open spec fn written_header(m: PacketView) -> DNSHeader {
    DNSHeader {
        id: m.header.id,
        flags: m.header.flags,
        questions_count: m.questions.len() as u16,
        answers_count: m.answers.len() as u16,
        authorities_count: m.authorities.len() as u16,
        additionals_count: m.additionals.len() as u16,
    }
}

/// The buffer after the message `m` is written at its cursor: the header,
/// with the counts that the sections have, then the sections in their
/// order. A section too long to count does not fit.
pub open spec fn push_message(s: BufferView, m: PacketView) -> Result<BufferView, EncodeError> {
    if !countable(m) {
        Err(EncodeError::TruncatedMessage)
    } else {
        match put_bytes(s, header_bytes(written_header(m))) {
            Err(e) => Err(e),
            Ok(s0) => match push_questions(s0, m.questions) {
                Err(e) => Err(e),
                Ok(s1) => match push_records(s1, m.answers) {
                    Err(e) => Err(e),
                    Ok(s2) => match push_records(s2, m.authorities) {
                        Err(e) => Err(e),
                        Ok(s3) => push_records(s3, m.additionals),
                    },
                },
            },
        }
    }
}

/// The first record of `rs` whose name ends with `domain`, if there is one.
pub open spec fn first_below(rs: Seq<RecordView>, domain: Seq<Seq<u8>>) -> Option<RecordView>
    decreases rs.len(),
{
    if rs.len() == 0 {
        None
    } else if ends_with(label_values(rs[0].name), domain, domain.len() as int) {
        Some(rs[0])
    } else {
        first_below(rs.drop_first(), domain)
    }
}

/// Writes `records` at the cursor of `buffer`, one behind the other.
fn write_records(records: &Vec<DNSResourceRecord>, buffer: &mut DNSPacketBuffer) -> (r: Result<
    (),
    EncodeError,
>)
    ensures
        match push_records(old(buffer)@, records.deep_view()) {
            Ok(s) => r is Ok && final(buffer)@ == s,
            Err(e) => r == Err::<(), EncodeError>(e),
        },
        grows(old(buffer)@, final(buffer)@),
{
    let ghost rs = records.deep_view();
    let mut i: usize = 0;
    assert(rs.take(0) =~= Seq::empty());
    while i < records.len()
        invariant
            i <= records@.len(),
            rs == records.deep_view(),
            push_records(old(buffer)@, rs.take(i as int)) == Ok::<BufferView, EncodeError>(
                buffer@,
            ),
            grows(old(buffer)@, buffer@),
        decreases records@.len() - i,
    {
        proof {
            assert(rs.take(i + 1).drop_last() =~= rs.take(i as int));
            assert(rs.take(i + 1).last() == records[i as int]@);
            lemma_push_records_stops(old(buffer)@, rs, i + 1);
        }
        let ghost before = buffer@;
        let step = records[i].write_to_buffer(buffer);
        proof {
            lemma_grows_trans(old(buffer)@, before, buffer@);
        }
        match step {
            Ok(()) => {},
            Err(e) => {
                return Err(e);
            },
        }
        i += 1;
    }
    assert(rs.take(i as int) =~= rs);
    Ok(())
}

/// Writes `questions` at the cursor of `buffer`, one behind the other.
fn write_questions(questions: &Vec<DNSQuestion>, buffer: &mut DNSPacketBuffer) -> (r: Result<
    (),
    EncodeError,
>)
    ensures
        match push_questions(old(buffer)@, questions.deep_view()) {
            Ok(s) => r is Ok && final(buffer)@ == s,
            Err(e) => r == Err::<(), EncodeError>(e),
        },
        grows(old(buffer)@, final(buffer)@),
{
    let ghost qs = questions.deep_view();
    let mut i: usize = 0;
    assert(qs.take(0) =~= Seq::empty());
    while i < questions.len()
        invariant
            i <= questions@.len(),
            qs == questions.deep_view(),
            push_questions(old(buffer)@, qs.take(i as int)) == Ok::<BufferView, EncodeError>(
                buffer@,
            ),
            grows(old(buffer)@, buffer@),
        decreases questions@.len() - i,
    {
        proof {
            assert(qs.take(i + 1).drop_last() =~= qs.take(i as int));
            assert(qs.take(i + 1).last() == questions[i as int]@);
            lemma_push_questions_stops(old(buffer)@, qs, i + 1);
        }
        let ghost before = buffer@;
        let step = questions[i].write_to_buffer(buffer);
        proof {
            lemma_grows_trans(old(buffer)@, before, buffer@);
        }
        match step {
            Ok(()) => {},
            Err(e) => {
                return Err(e);
            },
        }
        i += 1;
    }
    assert(qs.take(i as int) =~= qs);
    Ok(())
}

/// Where the first `k` records cannot be written, neither can all.
pub proof fn lemma_push_records_stops(s: BufferView, rs: Seq<RecordView>, k: int)
    requires
        0 <= k <= rs.len(),
    ensures
        push_records(s, rs.take(k)) matches Err(e) ==> push_records(s, rs) == Err::<
            BufferView,
            EncodeError,
        >(e),
    decreases rs.len(),
{
    if k < rs.len() {
        assert(rs.drop_last().take(k) =~= rs.take(k));
        lemma_push_records_stops(s, rs.drop_last(), k);
    } else {
        assert(rs.take(k) =~= rs);
    }
}

/// Where the first `k` questions cannot be written, neither can all.
pub proof fn lemma_push_questions_stops(s: BufferView, qs: Seq<QuestionView>, k: int)
    requires
        0 <= k <= qs.len(),
    ensures
        push_questions(s, qs.take(k)) matches Err(e) ==> push_questions(s, qs) == Err::<
            BufferView,
            EncodeError,
        >(e),
    decreases qs.len(),
{
    if k < qs.len() {
        assert(qs.drop_last().take(k) =~= qs.take(k));
        lemma_push_questions_stops(s, qs.drop_last(), k);
    } else {
        assert(qs.take(k) =~= qs);
    }
}

impl DNSPacket {
    /// An empty message: id 0, all flags clear, no entry in any section.
    pub fn new() -> (r: Self)
        ensures
            r@ == (PacketView {
                header: DNSHeader {
                    id: 0,
                    flags: DNSFlags {
                        qr: false,
                        opcode: 0,
                        aa: false,
                        tc: false,
                        rd: false,
                        ra: false,
                        z: 0,
                        rcode: 0,
                    },
                    questions_count: 0,
                    answers_count: 0,
                    authorities_count: 0,
                    additionals_count: 0,
                },
                questions: Seq::empty(),
                answers: Seq::empty(),
                authorities: Seq::empty(),
                additionals: Seq::empty(),
            }),
    {
        let r = DNSPacket {
            header: DNSHeader {
                id: 0,
                flags: DNSFlags {
                    qr: false,
                    opcode: 0,
                    aa: false,
                    tc: false,
                    rd: false,
                    ra: false,
                    z: 0,
                    rcode: 0,
                },
                questions_count: 0,
                additionals_count: 0,
                answers_count: 0,
                authorities_count: 0,
            },
            questions: Vec::new(),
            answers: Vec::new(),
            authorities: Vec::new(),
            additionals: Vec::new(),
        };
        assert(r@.questions =~= Seq::empty());
        assert(r@.answers =~= Seq::empty());
        assert(r@.authorities =~= Seq::empty());
        assert(r@.additionals =~= Seq::empty());
        r
    }

    /// Adds a question at the end of the question section. The counts of
    /// the header are left as they are.
    pub fn push_questions(&mut self, questions: DNSQuestion) -> (r: &mut Self)
        ensures
            r@ == (PacketView { questions: old(self)@.questions.push(questions@), ..old(self)@ }),
            *final(self) == *final(r),
    {
        self.questions.push(questions);
        assert(self.questions.deep_view() =~= old(self).questions.deep_view().push(questions@));
        self
    }

    /// Adds a record at the end of the answer section. The counts of the
    /// header are left as they are.
    pub fn push_answers(&mut self, answers: DNSResourceRecord) -> (r: &mut Self)
        ensures
            r@ == (PacketView { answers: old(self)@.answers.push(answers@), ..old(self)@ }),
            *final(self) == *final(r),
    {
        self.answers.push(answers);
        assert(self.answers.deep_view() =~= old(self).answers.deep_view().push(answers@));
        self
    }

    /// Adds a record at the end of the authority section. The counts of the
    /// header are left as they are.
    pub fn push_authorities(&mut self, authorities: DNSResourceRecord) -> (r: &mut Self)
        ensures
            r@ == (PacketView {
                authorities: old(self)@.authorities.push(authorities@),
                ..old(self)@
            }),
            *final(self) == *final(r),
    {
        self.authorities.push(authorities);
        assert(self.authorities.deep_view() =~= old(self).authorities.deep_view().push(
            authorities@,
        ));
        self
    }

    /// Adds a record at the end of the additional section. The counts of
    /// the header are left as they are.
    pub fn push_additionals(&mut self, additionals: DNSResourceRecord) -> (r: &mut Self)
        ensures
            r@ == (PacketView {
                additionals: old(self)@.additionals.push(additionals@),
                ..old(self)@
            }),
            *final(self) == *final(r),
    {
        self.additionals.push(additionals);
        assert(self.additionals.deep_view() =~= old(self).additionals.deep_view().push(
            additionals@,
        ));
        self
    }

    /// Decodes a datagram: the header, then the four sections with as many
    /// entries as the header counts. The first failure ends the decoding and
    /// is returned; no part of a message is.
    pub fn parse(packet: [u8; 512]) -> (r: Result<Self, ParseError>)
        ensures
            decodes_to(packet@, r),
    {
        let mut buffer = DNSPacketBuffer::new(packet);
        let header: DNSHeader = match DNSHeader::parse(&mut buffer) {
            Ok(h) => h,
            Err(e) => {
                return Err(e);
            },
        };
        let questions: Vec<DNSQuestion> = match DNSQuestion::parse_questions(header.questions_count as usize, &mut buffer) {
            Ok(q) => q,
            Err(e) => {
                return Err(e);
            },
        };
        let answers: Vec<DNSResourceRecord> = match DNSResourceRecord::parse_multiple(header.answers_count as usize, &mut buffer) {
            Ok(a) => a,
            Err(e) => {
                return Err(e);
            },
        };
        let authorities: Vec<DNSResourceRecord> = match DNSResourceRecord::parse_multiple(header.authorities_count as usize, &mut buffer) {
            Ok(a) => a,
            Err(e) => {
                return Err(e);
            },
        };
        let additionals: Vec<DNSResourceRecord> = match DNSResourceRecord::parse_multiple(header.additionals_count as usize, &mut buffer) {
            Ok(a) => a,
            Err(e) => {
                return Err(e);
            },
        };
        Ok(Self { header, questions, answers, authorities, additionals })
    }

    /// Encodes the message at the cursor of `buffer`: the header, then the
    /// questions, answers, authority records and additional records.
    ///
    /// The counts that are written are the lengths of the four sections,
    /// whatever the header holds. The first failure ends the encoding and is
    /// returned.
    pub fn write_to_buffer(&self, buffer: &mut DNSPacketBuffer) -> (r: Result<(), EncodeError>)
        ensures
            match push_message(old(buffer)@, self@) {
                Ok(s) => r is Ok && final(buffer)@ == s,
                Err(e) => r == Err::<(), EncodeError>(e),
            },
            grows(old(buffer)@, final(buffer)@),
    {
        if self.questions.len() > 0xFFFF || self.answers.len() > 0xFFFF || self.authorities.len()
            > 0xFFFF || self.additionals.len() > 0xFFFF {
            return Err(EncodeError::TruncatedMessage);
        }
        let header = DNSHeader {
            id: self.header.id,
            flags: self.header.flags,
            questions_count: self.questions.len() as u16,
            answers_count: self.answers.len() as u16,
            authorities_count: self.authorities.len() as u16,
            additionals_count: self.additionals.len() as u16,
        };
        proof {
            assert(header == written_header(self@));
            assert(header_bytes(header).len() == HEADER_SIZE);
        }
        match header.write_to_buffer(buffer) {
            Ok(()) => {},
            Err(e) => {
                return Err(e);
            },
        }
        let ghost s0 = buffer@;
        let step = write_questions(&self.questions, buffer);
        proof {
            lemma_grows_trans(old(buffer)@, s0, buffer@);
        }
        match step {
            Ok(()) => {},
            Err(e) => {
                return Err(e);
            },
        }
        let ghost s1 = buffer@;
        let step = write_records(&self.answers, buffer);
        proof {
            lemma_grows_trans(old(buffer)@, s1, buffer@);
        }
        match step {
            Ok(()) => {},
            Err(e) => {
                return Err(e);
            },
        }
        let ghost s2 = buffer@;
        let step = write_records(&self.authorities, buffer);
        proof {
            lemma_grows_trans(old(buffer)@, s2, buffer@);
        }
        match step {
            Ok(()) => {},
            Err(e) => {
                return Err(e);
            },
        }
        let ghost s3 = buffer@;
        let step = write_records(&self.additionals, buffer);
        proof {
            lemma_grows_trans(old(buffer)@, s3, buffer@);
        }
        step
    }

    /// Whether some question asks for exactly the name `domain`: as many
    /// labels, and the same octets label for label.
    pub fn contains_question(&self, domain: Vec<DNSLabel>) -> (r: bool)
        ensures
            r == exists|i: int|
                0 <= i < self@.questions.len() && label_values(
                    (#[trigger] self@.questions[i]).qname,
                ) == label_values(domain.deep_view()),
    {
        let domain_size: usize = domain.len();
        let ghost want = label_values(domain.deep_view());
        let mut i: usize = 0;
        while i < self.questions.len()
            invariant
                i <= self.questions@.len(),
                domain_size == domain@.len(),
                want == label_values(domain.deep_view()),
                forall|k: int|
                    0 <= k < i ==> label_values((#[trigger] self@.questions[k]).qname) != want,
            decreases self.questions@.len() - i,
        {
            let question: &DNSQuestion = &self.questions[i];
            let ghost have = label_values(question@.qname);
            if question.qname.len() == domain_size && contains_domain(
                &question.qname,
                &domain,
                domain_size,
            ) {
                assert(have =~= want) by {
                    assert forall|j: int| 0 <= j < have.len() implies have[j] == want[j] by {
                        assert(have[have.len() - 1 - (have.len() - 1 - j)] == want[domain_size - 1
                            - (have.len() - 1 - j)]);
                    }
                }
                assert(self@.questions[i as int] == question@);
                return true;
            }
            proof {
                assert(self@.questions[i as int] == question@);
                if have == want {
                    assert(ends_with(have, want, domain_size as int));
                }
            }
            i += 1;
        }
        false
    }

    /// The first record of the section `rrtype` whose name ends with the
    /// name `domain`, label for label: the record of that name, or of a name
    /// below it.
    pub fn contains_resource_record(&self, domain: Vec<DNSLabel>, rrtype: PacketRecordType) -> (r:
        Option<DNSResourceRecord>)
        ensures
            match first_below(
                match rrtype {
                    PacketRecordType::Answer => self@.answers,
                    PacketRecordType::Authority => self@.authorities,
                    PacketRecordType::Additional => self@.additionals,
                },
                label_values(domain.deep_view()),
            ) {
                Some(v) => r matches Some(record) && record@ == v,
                None => r is None,
            },
    {
        let domain_size: usize = domain.len();
        let check_rrs: &Vec<DNSResourceRecord> = match rrtype {
            PacketRecordType::Answer => &self.answers,
            PacketRecordType::Authority => &self.authorities,
            PacketRecordType::Additional => &self.additionals,
        };
        let ghost rs = check_rrs.deep_view();
        let ghost want = label_values(domain.deep_view());
        let mut i: usize = 0;
        assert(rs.skip(0) =~= rs);
        while i < check_rrs.len()
            invariant
                i <= check_rrs@.len(),
                rs == check_rrs.deep_view(),
                rs == match rrtype {
                    PacketRecordType::Answer => self@.answers,
                    PacketRecordType::Authority => self@.authorities,
                    PacketRecordType::Additional => self@.additionals,
                },
                domain_size == domain@.len(),
                want == label_values(domain.deep_view()),
                want.len() == domain_size,
                first_below(rs, want) == first_below(rs.skip(i as int), want),
            decreases check_rrs@.len() - i,
        {
            let check: &DNSResourceRecord = &check_rrs[i];
            proof {
                assert(rs.skip(i as int)[0] == check@);
                assert(rs.skip(i as int).drop_first() =~= rs.skip(i + 1));
            }
            let hit: bool = contains_domain(&check.name, &domain, domain_size);
            proof {
                let left = rs.skip(i as int);
                assert(left.len() > 0);
                assert(hit == ends_with(label_values(left[0].name), want, want.len() as int));
                assert(first_below(left, want) == if hit {
                    Some(left[0])
                } else {
                    first_below(left.drop_first(), want)
                });
            }
            if hit {
                let found: DNSResourceRecord = check.clone();
                return Some(found);
            }
            i += 1;
        }
        None
    }
}

} // verus!
