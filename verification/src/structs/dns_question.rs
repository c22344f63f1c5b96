//! Entries of the question section.

use vstd::prelude::*;
use vstd::string::StringSliceAdditionalSpecFns;
use crate::names::{
    be16, decode_name, grows, join_items, lemma_grows_trans, lemma_put_bytes_grows, push_name,
    put_bytes, u16_bytes, MAX_POINTER_HOPS,
};
use crate::structs::dns_packet_buffer::{
    copy_labels, fresh_labels, label_values, BufferView, DNSLabel, DNSPacketBuffer, LabelView,
};
use crate::structs::error::{EncodeError, ParseError};
use crate::utils::{split_dots, split_labels};

verus! {

/// One entry of the question section.
#[derive(Debug)]
pub struct DNSQuestion {
    /// The name asked for, label by label, without the root.
    pub qname: Vec<DNSLabel>,
    /// The type asked for: 1 A, 2 NS, 5 CNAME, 6 SOA, 12 PTR, 15 MX, 16 TXT,
    /// 28 AAAA, 33 SRV, 255 any.
    pub qtype: u16,
    /// The class asked for: 1 IN, 3 CH, 4 HS, 255 any.
    pub qclass: u16,
}

/// Mathematical content of a `DNSQuestion`.
pub struct QuestionView {
    pub qname: Seq<LabelView>,
    pub qtype: u16,
    pub qclass: u16,
}

impl View for DNSQuestion {
    type V = QuestionView;

    open spec fn view(&self) -> QuestionView {
        QuestionView { qname: self.qname.deep_view(), qtype: self.qtype, qclass: self.qclass }
    }
}

impl DeepView for DNSQuestion {
    type V = QuestionView;

    open spec fn deep_view(&self) -> QuestionView {
        self@
    }
}

/// The question that stands at `pos`, and where the reader is left after
/// it: a name, a 16-bit type and a 16-bit class.
#[verifier::opaque]
pub open spec fn decode_question(buf: Seq<u8>, pos: int) -> Result<(QuestionView, int), ParseError> {
    match decode_name(buf, pos, MAX_POINTER_HOPS as nat) {
        Err(e) => Err(e),
        Ok((name, end)) => if end + 4 > buf.len() {
            Err(ParseError::TruncatedMessage)
        } else {
            Ok(
                (
                    QuestionView {
                        qname: fresh_labels(name),
                        qtype: be16(buf, end),
                        qclass: be16(buf, end + 2),
                    },
                    end + 4,
                ),
            )
        },
    }
}

/// The `count` questions that stand one behind the other from `pos` on.
pub open spec fn decode_questions(buf: Seq<u8>, pos: int, count: nat) -> Result<
    (Seq<QuestionView>, int),
    ParseError,
>
    decreases count,
{
    if count == 0 {
        Ok((Seq::empty(), pos))
    } else {
        match decode_question(buf, pos) {
            Err(e) => Err(e),
            Ok((q, next)) => join_items(seq![q], decode_questions(buf, next, (count - 1) as nat)),
        }
    }
}

/// The buffer after `q` is written at its cursor: the name, compressed
/// against the names written before, then type and class.
#[verifier::opaque]
pub open spec fn push_question(s: BufferView, q: QuestionView) -> Result<BufferView, EncodeError> {
    match push_name(s, label_values(q.qname)) {
        Err(e) => Err(e),
        Ok(named) => put_bytes(named, u16_bytes(q.qtype) + u16_bytes(q.qclass)),
    }
}

impl Clone for DNSQuestion {
    fn clone(&self) -> (r: Self)
        ensures
            r@ == self@,
    {
        DNSQuestion { qname: copy_labels(&self.qname), qtype: self.qtype, qclass: self.qclass }
    }
}

impl DNSQuestion {
    /// Reads one question at the cursor. On failure the buffer is left as it
    /// was.
    pub fn parse(buffer: &mut DNSPacketBuffer) -> (r: Result<DNSQuestion, ParseError>)
        ensures
            match decode_question(old(buffer).buffer@, old(buffer).offset as int) {
                Ok((q, end)) => {
                    &&& r matches Ok(question)
                    &&& question@ == q
                    &&& final(buffer).offset == end
                    &&& final(buffer).buffer == old(buffer).buffer
                    &&& final(buffer).domains == old(buffer).domains
                },
                Err(e) => r == Err::<DNSQuestion, ParseError>(e) && *final(buffer) == *old(buffer),
            },
    {
        proof {
            reveal(decode_question);
        }
        let start: usize = buffer.offset;
        let labels: Vec<DNSLabel> = match buffer.parse_labels() {
            Ok(l) => l,
            Err(e) => {
                return Err(e);
            },
        };
        if !buffer.remaining_bytes(4) {
            buffer.offset = start;
            return Err(ParseError::TruncatedMessage);
        }
        let qtype: u16 = buffer.read_u16();
        let qclass: u16 = buffer.read_u16();
        Ok(DNSQuestion { qname: labels, qtype, qclass })
    }

    /// Reads `count` questions, one behind the other, from the cursor on.
    /// The first failure ends the reading, and the buffer is left as it was.
    pub fn parse_questions(count: usize, buffer: &mut DNSPacketBuffer) -> (r: Result<
        Vec<DNSQuestion>,
        ParseError,
    >)
        ensures
            match decode_questions(old(buffer).buffer@, old(buffer).offset as int, count as nat) {
                Ok((qs, end)) => {
                    &&& r matches Ok(questions)
                    &&& questions.deep_view() == qs
                    &&& final(buffer).offset == end
                    &&& final(buffer).buffer == old(buffer).buffer
                    &&& final(buffer).domains == old(buffer).domains
                },
                Err(e) => r == Err::<Vec<DNSQuestion>, ParseError>(e) && *final(buffer) == *old(
                    buffer,
                ),
            },
    {
        let start: usize = buffer.offset;
        let ghost buf = buffer.buffer@;
        let mut questions: Vec<DNSQuestion> = Vec::new();
        let mut i: usize = 0;
        proof {
            let all = decode_questions(buf, start as int, count as nat);
            if all is Ok {
                assert(questions.deep_view() + all->Ok_0.0 =~= all->Ok_0.0);
            }
        }
        while i < count
            invariant
                i <= count,
                buf == buffer.buffer@,
                buffer.buffer == old(buffer).buffer,
                buffer.domains == old(buffer).domains,
                start == old(buffer).offset,
                decode_questions(buf, start as int, count as nat) == join_items(
                    questions.deep_view(),
                    decode_questions(buf, buffer.offset as int, (count - i) as nat),
                ),
            decreases count - i,
        {
            let ghost before = questions.deep_view();
            let ghost at = buffer.offset as int;
            let question: DNSQuestion = match DNSQuestion::parse(buffer) {
                Ok(q) => q,
                Err(e) => {
                    buffer.offset = start;
                    return Err(e);
                },
            };
            proof {
                let rest = decode_questions(buf, buffer.offset as int, (count - i - 1) as nat);
                if rest is Ok {
                    assert((before + seq![question@]) + rest->Ok_0.0 =~= before + (seq![question@]
                        + rest->Ok_0.0));
                }
            }
            questions.push(question);
            assert(questions.deep_view() =~= before + seq![question@]);
            i += 1;
        }
        proof {
            assert(questions.deep_view() + Seq::<QuestionView>::empty() =~= questions.deep_view());
        }
        Ok(questions)
    }

    /// Writes the question at the cursor: the name, compressed against the
    /// names written before, then type and class.
    pub fn write_to_buffer(&self, buffer: &mut DNSPacketBuffer) -> (r: Result<(), EncodeError>)
        ensures
            match push_question(old(buffer)@, self@) {
                Ok(s) => r is Ok && final(buffer)@ == s,
                Err(e) => r == Err::<(), EncodeError>(e),
            },
            grows(old(buffer)@, final(buffer)@),
    {
        proof {
            reveal(push_question);
        }
        match buffer.push_labels(&self.qname) {
            Ok(()) => {},
            Err(e) => {
                return Err(e);
            },
        }
        if !buffer.remaining_bytes(4) {
            return Err(EncodeError::TruncatedMessage);
        }
        let ghost named = buffer@;
        buffer.write_u16(self.qtype);
        buffer.write_u16(self.qclass);
        assert(buffer.buffer@ =~= crate::names::splice(
            named.bytes,
            named.offset,
            u16_bytes(self.qtype) + u16_bytes(self.qclass),
        ));
        proof {
            lemma_put_bytes_grows(named, u16_bytes(self.qtype) + u16_bytes(self.qclass));
            lemma_grows_trans(old(buffer)@, named, buffer@);
        }
        Ok(())
    }

    /// A question for the dotted name `domain`: its labels are what stands
    /// between the dots, without offsets.
    pub fn from_simple_string(domain: &str, q_type: u16, q_class: u16) -> (r: Self)
        ensures
            label_values(r@.qname) == split_dots(domain.spec_bytes()),
            forall|i: int| 0 <= i < r@.qname.len() ==> (#[trigger] r@.qname[i]).offset is None,
            r@.qtype == q_type,
            r@.qclass == q_class,
    {
        let labels: Vec<DNSLabel> = split_labels(domain.as_bytes());
        Self { qname: labels, qtype: q_type, qclass: q_class }
    }
}

} // verus!
