//! What is written is read back: the octets that the encoder writes for a
//! message decode to that message.

use vstd::prelude::*;
use crate::names::{
    be16, be32, best_match, decode_name, decode_strings, extends, grows, join_items,
    lemma_best_match, lemma_extends_trans, lemma_literal_len, lemma_push_name_grows,
    lemma_put_bytes_grows, lemma_suffix_run, literal_bytes, literal_len, match_offset, name_wire,
    pointer_bytes, pointer_target, push_name, put_bytes, u16_bytes, u32_bytes, written,
    MAX_POINTER_HOPS,
};
use crate::spelling::{
    label_spelled, lemma_found_name_is_pointer, lemma_literal_at, lemma_name_wire_spells,
    lemma_registry_extends, lemma_spells_decodes, lemma_written_name_found, name_end, name_ok,
    registry_ok, spells,
};
use crate::structs::dns_flags::{flags_from_bits, lemma_flags_round_trip};
use crate::structs::dns_header::{header_at, header_bytes, DNSHeader, HEADER_SIZE};
use crate::structs::dns_packet::{
    countable, decode_message, push_message, push_questions, push_records, written_header,
    PacketView,
};
use crate::structs::dns_packet_buffer::{fresh_labels, label_values, BufferView, LabelView};
use crate::structs::dns_question::{decode_question, decode_questions, push_question, QuestionView};
use crate::structs::dns_record_types::{
    decode_labels, decode_rdata, push_rdata, RecordDataView, TYPE_A, TYPE_AAAA, TYPE_CNAME, TYPE_MX,
    TYPE_NS, TYPE_PTR, TYPE_SOA, TYPE_SRV, TYPE_TXT,
};
use crate::structs::dns_resource_record::{
    decode_record, decode_records, push_record, record_fixed, RecordView,
};
use crate::structs::error::{EncodeError, ParseError};
use crate::structs::record_types::mx_record::{decode_mx, push_mx, MxView};
use crate::structs::record_types::soa_record::{decode_soa, push_soa, soa_numbers, SoaView};
use crate::structs::record_types::srv_record::{decode_srv, push_srv, SrvView};
use crate::structs::record_types::txt_record::{decode_txt, push_txt};

verus! {

/// What holds of a buffer while a message is encoded into it: the cursor
/// stands within it, offsets and lengths fit 16 bits, and every written
/// name is spelled by what has been written.
pub open spec fn encoder_ok(s: BufferView) -> bool {
    &&& 0 <= s.offset <= s.bytes.len() <= 0xFFFF
    &&& registry_ok(written(s), s.domains)
}

/// Whether nothing has been written into `s`: the cursor stands at the
/// start, and no name is kept.
pub open spec fn fresh(s: BufferView) -> bool {
    s.offset == 0 && s.domains.len() == 0 && s.bytes.len() <= 0xFFFF
}

/// A buffer that nothing has been written into is one that a message can
/// be encoded into.
pub proof fn lemma_fresh_encoder_ok(s: BufferView)
    requires
        fresh(s),
    ensures
        encoder_ok(s),
{
}

/// Whether `r` is `expected`; or, where more than `MAX_POINTER_HOPS`
/// names are `kept`, the reader may have run out of pointer hops instead.
pub open spec fn reads_as<T>(r: Result<T, ParseError>, expected: T, kept: nat) -> bool {
    r == Ok::<T, ParseError>(expected) || (kept > MAX_POINTER_HOPS && r == Err::<T, ParseError>(
        ParseError::CompressionLoopExceeded,
    ))
}

/// Whether none of `labels` has an offset.
pub open spec fn no_offsets(labels: Seq<LabelView>) -> bool {
    forall|i: int| 0 <= i < labels.len() ==> (#[trigger] labels[i]).offset is None
}

/// Whether `labels` are a name as a message holds it: every label of 1 to
/// 63 octets, and none with an offset.
pub open spec fn labels_ok(labels: Seq<LabelView>) -> bool {
    name_ok(label_values(labels)) && no_offsets(labels)
}

/// Labels without offsets are the labels that their octets decode to.
pub proof fn lemma_fresh_labels(labels: Seq<LabelView>)
    requires
        no_offsets(labels),
    ensures
        fresh_labels(label_values(labels)) == labels,
{
    assert(fresh_labels(label_values(labels)) =~= labels);
}

/// Two octets written most significant first are read as the number they
/// were written for.
pub proof fn lemma_be16_of_bytes(f: Seq<u8>, pos: int, v: u16)
    requires
        0 <= pos,
        pos + 2 <= f.len(),
        f[pos] == u16_bytes(v)[0],
        f[pos + 1] == u16_bytes(v)[1],
    ensures
        be16(f, pos) == v,
{
}

/// Four octets written most significant first are read as the number they
/// were written for.
pub proof fn lemma_be32_of_bytes(f: Seq<u8>, pos: int, v: u32)
    requires
        0 <= pos,
        pos + 4 <= f.len(),
        f[pos] == u32_bytes(v)[0],
        f[pos + 1] == u32_bytes(v)[1],
        f[pos + 2] == u32_bytes(v)[2],
        f[pos + 3] == u32_bytes(v)[3],
    ensures
        be32(f, pos) == v,
{
}

/// Octets that are written stand in every buffer that begins with what
/// is written, and written names stay spelled.
pub proof fn lemma_put_bytes_read(s: BufferView, data: Seq<u8>, f: Seq<u8>)
    requires
        encoder_ok(s),
        put_bytes(s, data) is Ok,
        extends(f, written(put_bytes(s, data)->Ok_0)),
    ensures
        encoder_ok(put_bytes(s, data)->Ok_0),
        grows(s, put_bytes(s, data)->Ok_0),
        put_bytes(s, data)->Ok_0.offset == s.offset + data.len(),
        put_bytes(s, data)->Ok_0.domains == s.domains,
        forall|i: int| 0 <= i < data.len() ==> #[trigger] f[s.offset + i] == data[i],
{
    let t = put_bytes(s, data)->Ok_0;
    assert forall|i: int| 0 <= i < data.len() implies #[trigger] f[s.offset + i] == data[i] by {
        assert(f[s.offset + i] == written(t)[s.offset + i]);
    }
    assert(extends(written(t), written(s)));
    lemma_registry_extends(written(s), written(t), s.domains);
}

/// A name that is written is read back where it was written, up to the
/// end of what was written for it, unless the reader runs out of hops; and
/// written names stay spelled.
pub proof fn lemma_push_name_read(s: BufferView, name: Seq<Seq<u8>>, f: Seq<u8>)
    requires
        encoder_ok(s),
        name_ok(name),
        push_name(s, name) is Ok,
        extends(f, written(push_name(s, name)->Ok_0)),
        f.len() <= 0xFFFF,
    ensures
        encoder_ok(push_name(s, name)->Ok_0),
        grows(s, push_name(s, name)->Ok_0),
        s.offset < push_name(s, name)->Ok_0.offset,
        name.len() > 0 ==> s.offset + 2 <= push_name(s, name)->Ok_0.offset,
        reads_as(
            decode_name(f, s.offset, MAX_POINTER_HOPS as nat),
            (name, push_name(s, name)->Ok_0.offset),
            push_name(s, name)->Ok_0.domains.len(),
        ),
{
    let t = push_name(s, name)->Ok_0;
    let nw = name_wire(s.domains, s.offset, name)->Ok_0;
    let w = written(s);
    assert(written(t) =~= w + nw.bytes);
    assert(w.len() == s.offset);
    lemma_name_wire_spells(w, s.domains, name, f);
    lemma_spells_decodes(f, s.offset, name, s.domains.len(), MAX_POINTER_HOPS as nat);
    assert(extends(written(t), w));
    lemma_spelled_length(f, s.offset, name, s.domains.len());
    lemma_push_name_grows(s, name);
}

/// What spells a name takes at least one octet, and at least two where
/// the name has a label.
pub proof fn lemma_spelled_length(w: Seq<u8>, pos: int, name: Seq<Seq<u8>>, hops: nat)
    requires
        spells(w, pos, name, hops),
    ensures
        name_end(w, pos) > pos,
        name.len() > 0 ==> name_end(w, pos) >= pos + 2,
{
    if name.len() == 0 {
    } else if w[pos] >= 0xC0 {
    } else {
        let next = pos + 1 + w[pos] as int;
        lemma_name_end_after(w, next);
    }
}

/// A name does not end before it begins.
pub proof fn lemma_name_end_after(w: Seq<u8>, pos: int)
    ensures
        name_end(w, pos) >= pos,
    decreases w.len() - pos,
{
    if pos < 0 || pos >= w.len() || w[pos] == 0 || w[pos] >= 0xC0 || pos + 1 + w[pos] as int
        > w.len() {
    } else {
        lemma_name_end_after(w, pos + 1 + w[pos] as int);
    }
}

/// Whether `q` is a question as a message holds it.
pub open spec fn question_ok(q: QuestionView) -> bool {
    labels_ok(q.qname)
}

/// A question that is written is read back where it was written.
pub proof fn lemma_push_question_read(s: BufferView, q: QuestionView, f: Seq<u8>)
    requires
        encoder_ok(s),
        question_ok(q),
        push_question(s, q) is Ok,
        extends(f, written(push_question(s, q)->Ok_0)),
        f.len() <= 0xFFFF,
    ensures
        encoder_ok(push_question(s, q)->Ok_0),
        grows(s, push_question(s, q)->Ok_0),
        reads_as(
            decode_question(f, s.offset),
            (q, push_question(s, q)->Ok_0.offset),
            push_question(s, q)->Ok_0.domains.len(),
        ),
{
    reveal(push_question);
    reveal(decode_question);
    let t = push_question(s, q)->Ok_0;
    let name = label_values(q.qname);
    let named = push_name(s, name)->Ok_0;
    let fixed = u16_bytes(q.qtype) + u16_bytes(q.qclass);
    lemma_push_name_grows(s, name);
    lemma_put_bytes_grows(named, fixed);
    lemma_extends_trans(f, written(t), written(named));
    lemma_push_name_read(s, name, f);
    lemma_put_bytes_read(named, fixed, f);
    lemma_extends_trans(written(t), written(named), written(s));
    lemma_fresh_labels(q.qname);
    let end = named.offset;
    assert(f[end + 0] == fixed[0]);
    assert(f[end + 1] == fixed[1]);
    assert(f[end + 2] == fixed[2]);
    assert(f[end + 3] == fixed[3]);
    lemma_be16_of_bytes(f, end, q.qtype);
    lemma_be16_of_bytes(f, end + 2, q.qclass);
}

/// Whether `s2` is `s` but for the octets it holds.
pub open spec fn alike(s: BufferView, s2: BufferView) -> bool {
    s.offset == s2.offset && s.domains == s2.domains && s.bytes.len() == s2.bytes.len()
}

/// Whether the step from `s2` to `t2` wrote what the step from `s` to `t`
/// wrote, where it wrote it, and nothing else.
pub open spec fn wrote_same(s: BufferView, t: BufferView, s2: BufferView, t2: BufferView) -> bool {
    &&& alike(t, t2)
    &&& forall|i: int|
        0 <= i < t.bytes.len() ==> #[trigger] t2.bytes[i] == if s.offset <= i < t.offset {
            t.bytes[i]
        } else {
            s2.bytes[i]
        }
}

/// What writing octets does to a buffer does not depend on the octets
/// that the buffer holds.
pub proof fn lemma_put_bytes_frame(s: BufferView, s2: BufferView, data: Seq<u8>)
    requires
        0 <= s.offset,
        alike(s, s2),
        put_bytes(s, data) is Ok,
    ensures
        put_bytes(s2, data) is Ok,
        wrote_same(s, put_bytes(s, data)->Ok_0, s2, put_bytes(s2, data)->Ok_0),
{
}

/// What writing a name does to a buffer does not depend on the octets that
/// the buffer holds.
pub proof fn lemma_push_name_frame(s: BufferView, s2: BufferView, name: Seq<Seq<u8>>)
    requires
        0 <= s.offset,
        alike(s, s2),
        push_name(s, name) is Ok,
    ensures
        push_name(s2, name) is Ok,
        wrote_same(s, push_name(s, name)->Ok_0, s2, push_name(s2, name)->Ok_0),
{
}

/// Two steps that each write the same as their likes write the same
/// together.
pub proof fn lemma_wrote_same_chain(
    s: BufferView,
    m: BufferView,
    t: BufferView,
    s2: BufferView,
    m2: BufferView,
    t2: BufferView,
)
    requires
        s.offset <= m.offset <= t.offset,
        s.bytes.len() == m.bytes.len() == t.bytes.len(),
        wrote_same(s, m, s2, m2),
        wrote_same(m, t, m2, t2),
        wrote_same(m, t, m, t),
    ensures
        wrote_same(s, t, s2, t2),
{
    assert forall|i: int| 0 <= i < t.bytes.len() implies #[trigger] t2.bytes[i] == if s.offset
        <= i < t.offset {
        t.bytes[i]
    } else {
        s2.bytes[i]
    } by {
        assert(m2.bytes[i] == if s.offset <= i < m.offset {
            m.bytes[i]
        } else {
            s2.bytes[i]
        });
        assert(t.bytes[i] == if m.offset <= i < t.offset {
            t.bytes[i]
        } else {
            m.bytes[i]
        });
    }
}

/// Writing a payload leaves what was written before as it is.
pub proof fn lemma_push_rdata_grows(s: BufferView, data: RecordDataView)
    requires
        0 <= s.offset,
        push_rdata(s, data) is Ok,
    ensures
        grows(s, push_rdata(s, data)->Ok_0),
        push_rdata(s, data)->Ok_0.offset <= s.bytes.len(),
{
    reveal(push_rdata);
    match data {
        RecordDataView::MX(v) => {
            let s1 = put_bytes(s, u16_bytes(v.preference))->Ok_0;
            lemma_put_bytes_grows(s, u16_bytes(v.preference));
            lemma_push_name_grows(s1, label_values(v.mail_exchange));
            lemma_extends_trans(written(push_mx(s, v)->Ok_0), written(s1), written(s));
        },
        RecordDataView::SRV(v) => {
            let fixed = u16_bytes(v.priority) + u16_bytes(v.weight) + u16_bytes(v.port);
            let s1 = put_bytes(s, fixed)->Ok_0;
            lemma_put_bytes_grows(s, fixed);
            lemma_push_name_grows(s1, label_values(v.target));
            lemma_extends_trans(written(push_srv(s, v)->Ok_0), written(s1), written(s));
        },
        RecordDataView::SOA(v) => {
            let s1 = push_name(s, label_values(v.primary_ns))->Ok_0;
            let s2 = push_name(s1, label_values(v.responsible_email))->Ok_0;
            lemma_push_name_grows(s, label_values(v.primary_ns));
            lemma_push_name_grows(s1, label_values(v.responsible_email));
            lemma_put_bytes_grows(s2, soa_numbers(v));
            lemma_extends_trans(written(s2), written(s1), written(s));
            lemma_extends_trans(written(push_soa(s, v)->Ok_0), written(s2), written(s));
        },
        RecordDataView::A(v) => {
            lemma_put_bytes_grows(s, v);
        },
        RecordDataView::AAAA(v) => {
            lemma_put_bytes_grows(s, v);
        },
        RecordDataView::TXT(v) => {
            lemma_put_bytes_grows(s, literal_bytes(v));
        },
        RecordDataView::Unknown { raw_data, .. } => {
            lemma_put_bytes_grows(s, raw_data);
        },
        RecordDataView::CNAME(v) => {
            lemma_push_name_grows(s, label_values(v));
        },
        RecordDataView::NS(v) => {
            lemma_push_name_grows(s, label_values(v));
        },
        RecordDataView::PTR(v) => {
            lemma_push_name_grows(s, label_values(v));
        },
    }
}

/// What writing a payload does to a buffer does not depend on the octets
/// that the buffer holds.
pub proof fn lemma_push_rdata_frame(s: BufferView, s2: BufferView, data: RecordDataView)
    requires
        0 <= s.offset,
        alike(s, s2),
        push_rdata(s, data) is Ok,
    ensures
        push_rdata(s2, data) is Ok,
        wrote_same(s, push_rdata(s, data)->Ok_0, s2, push_rdata(s2, data)->Ok_0),
{
    reveal(push_rdata);
    match data {
        RecordDataView::MX(v) => {
            let d = u16_bytes(v.preference);
            let n = label_values(v.mail_exchange);
            let m = put_bytes(s, d)->Ok_0;
            lemma_put_bytes_frame(s, s2, d);
            let m2 = put_bytes(s2, d)->Ok_0;
            lemma_push_name_frame(m, m2, n);
            lemma_push_name_frame(m, m, n);
            lemma_wrote_same_chain(
                s,
                m,
                push_name(m, n)->Ok_0,
                s2,
                m2,
                push_name(m2, n)->Ok_0,
            );
        },
        RecordDataView::SRV(v) => {
            let d = u16_bytes(v.priority) + u16_bytes(v.weight) + u16_bytes(v.port);
            let n = label_values(v.target);
            let m = put_bytes(s, d)->Ok_0;
            lemma_put_bytes_frame(s, s2, d);
            let m2 = put_bytes(s2, d)->Ok_0;
            lemma_push_name_frame(m, m2, n);
            lemma_push_name_frame(m, m, n);
            lemma_wrote_same_chain(
                s,
                m,
                push_name(m, n)->Ok_0,
                s2,
                m2,
                push_name(m2, n)->Ok_0,
            );
        },
        RecordDataView::SOA(v) => {
            let n1 = label_values(v.primary_ns);
            let n2 = label_values(v.responsible_email);
            let d = soa_numbers(v);
            let a = push_name(s, n1)->Ok_0;
            lemma_push_name_frame(s, s2, n1);
            let a2 = push_name(s2, n1)->Ok_0;
            let b = push_name(a, n2)->Ok_0;
            lemma_push_name_frame(a, a2, n2);
            lemma_push_name_frame(a, a, n2);
            let b2 = push_name(a2, n2)->Ok_0;
            lemma_wrote_same_chain(s, a, b, s2, a2, b2);
            let c = put_bytes(b, d)->Ok_0;
            lemma_put_bytes_frame(b, b2, d);
            lemma_put_bytes_frame(b, b, d);
            let c2 = put_bytes(b2, d)->Ok_0;
            lemma_wrote_same_chain(s, b, c, s2, b2, c2);
        },
        RecordDataView::A(v) => {
            lemma_put_bytes_frame(s, s2, v);
        },
        RecordDataView::AAAA(v) => {
            lemma_put_bytes_frame(s, s2, v);
        },
        RecordDataView::TXT(v) => {
            lemma_put_bytes_frame(s, s2, literal_bytes(v));
        },
        RecordDataView::Unknown { raw_data, .. } => {
            lemma_put_bytes_frame(s, s2, raw_data);
        },
        RecordDataView::CNAME(v) => {
            lemma_push_name_frame(s, s2, label_values(v));
        },
        RecordDataView::NS(v) => {
            lemma_push_name_frame(s, s2, label_values(v));
        },
        RecordDataView::PTR(v) => {
            lemma_push_name_frame(s, s2, label_values(v));
        },
    }
}

/// Whether `t` is a type code that has a payload rule of its own.
pub open spec fn known_type(t: u16) -> bool {
    t == TYPE_A || t == TYPE_NS || t == TYPE_CNAME || t == TYPE_SOA || t == TYPE_PTR || t == TYPE_MX
        || t == TYPE_TXT || t == TYPE_AAAA || t == TYPE_SRV
}

/// Whether `data` is a payload as a record of type `rtype` holds it: of
/// the variant that the type calls for, with names whose labels have 1 to
/// 63 octets and no offsets, and of a length that the type admits.
pub open spec fn rdata_ok(data: RecordDataView, rtype: u16) -> bool {
    match data {
        RecordDataView::A(v) => rtype == TYPE_A && v.len() == 4,
        RecordDataView::AAAA(v) => rtype == TYPE_AAAA && v.len() == 16,
        RecordDataView::CNAME(v) => rtype == TYPE_CNAME && labels_ok(v) && v.len() > 0,
        RecordDataView::MX(v) => rtype == TYPE_MX && labels_ok(v.mail_exchange),
        RecordDataView::TXT(v) => {
            &&& rtype == TYPE_TXT
            &&& literal_len(v) >= 2
            &&& forall|k: int| 0 <= k < v.len() ==> (#[trigger] v[k]).len() <= 255
        },
        RecordDataView::SRV(v) => rtype == TYPE_SRV && labels_ok(v.target),
        RecordDataView::NS(v) => rtype == TYPE_NS && labels_ok(v),
        RecordDataView::PTR(v) => rtype == TYPE_PTR && labels_ok(v) && v.len() > 0,
        RecordDataView::SOA(v) => rtype == TYPE_SOA && labels_ok(v.primary_ns) && labels_ok(
            v.responsible_email,
        ),
        RecordDataView::Unknown { record_type, data_length, raw_data } => {
            &&& record_type == rtype
            &&& !known_type(rtype)
            &&& data_length == raw_data.len()
        },
    }
}

/// A name that is written as a payload is read back as the payload of the
/// length that was written.
pub proof fn lemma_name_payload_read(s: BufferView, labels: Seq<LabelView>, f: Seq<u8>, least: int)
    requires
        encoder_ok(s),
        labels_ok(labels),
        push_name(s, label_values(labels)) is Ok,
        extends(f, written(push_name(s, label_values(labels))->Ok_0)),
        f.len() <= 0xFFFF,
        least <= 1 || (least == 2 && labels.len() > 0),
    ensures
        encoder_ok(push_name(s, label_values(labels))->Ok_0),
        reads_as(
            decode_labels(
                f,
                s.offset,
                push_name(s, label_values(labels))->Ok_0.offset - s.offset,
                least,
            ),
            labels,
            push_name(s, label_values(labels))->Ok_0.domains.len(),
        ),
{
    lemma_push_name_read(s, label_values(labels), f);
    lemma_fresh_labels(labels);
}

/// Octets that are written as a payload stand where they were written.
pub proof fn lemma_raw_payload_read(s: BufferView, data: Seq<u8>, f: Seq<u8>)
    requires
        encoder_ok(s),
        put_bytes(s, data) is Ok,
        extends(f, written(put_bytes(s, data)->Ok_0)),
    ensures
        encoder_ok(put_bytes(s, data)->Ok_0),
        f.subrange(s.offset, s.offset + data.len()) == data,
        s.offset + data.len() <= f.len(),
{
    lemma_put_bytes_read(s, data, f);
    assert(f.subrange(s.offset, s.offset + data.len()) =~= data);
}

/// A mail exchange that is written is read back.
pub proof fn lemma_push_mx_read(s: BufferView, v: MxView, f: Seq<u8>)
    requires
        encoder_ok(s),
        labels_ok(v.mail_exchange),
        push_mx(s, v) is Ok,
        extends(f, written(push_mx(s, v)->Ok_0)),
        f.len() <= 0xFFFF,
    ensures
        encoder_ok(push_mx(s, v)->Ok_0),
        reads_as(
            decode_mx(f, s.offset, push_mx(s, v)->Ok_0.offset - s.offset),
            v,
            push_mx(s, v)->Ok_0.domains.len(),
        ),
{
    let t = push_mx(s, v)->Ok_0;
    let d = u16_bytes(v.preference);
    let m = put_bytes(s, d)->Ok_0;
    lemma_put_bytes_grows(s, d);
    lemma_push_name_grows(m, label_values(v.mail_exchange));
    lemma_extends_trans(f, written(t), written(m));
    lemma_put_bytes_read(s, d, f);
    lemma_name_payload_read(m, v.mail_exchange, f, 1);
    lemma_push_name_read(m, label_values(v.mail_exchange), f);
    assert(f[s.offset + 0] == d[0]);
    assert(f[s.offset + 1] == d[1]);
    lemma_be16_of_bytes(f, s.offset, v.preference);
}

/// A service location that is written is read back.
pub proof fn lemma_push_srv_read(s: BufferView, v: SrvView, f: Seq<u8>)
    requires
        encoder_ok(s),
        labels_ok(v.target),
        push_srv(s, v) is Ok,
        extends(f, written(push_srv(s, v)->Ok_0)),
        f.len() <= 0xFFFF,
    ensures
        encoder_ok(push_srv(s, v)->Ok_0),
        reads_as(
            decode_srv(f, s.offset, push_srv(s, v)->Ok_0.offset - s.offset),
            v,
            push_srv(s, v)->Ok_0.domains.len(),
        ),
{
    let t = push_srv(s, v)->Ok_0;
    let d = u16_bytes(v.priority) + u16_bytes(v.weight) + u16_bytes(v.port);
    let m = put_bytes(s, d)->Ok_0;
    lemma_put_bytes_grows(s, d);
    lemma_push_name_grows(m, label_values(v.target));
    lemma_extends_trans(f, written(t), written(m));
    lemma_put_bytes_read(s, d, f);
    lemma_name_payload_read(m, v.target, f, 1);
    lemma_push_name_read(m, label_values(v.target), f);
    assert(f[s.offset + 0] == d[0]);
    assert(f[s.offset + 1] == d[1]);
    assert(f[s.offset + 2] == d[2]);
    assert(f[s.offset + 3] == d[3]);
    assert(f[s.offset + 4] == d[4]);
    assert(f[s.offset + 5] == d[5]);
    lemma_be16_of_bytes(f, s.offset, v.priority);
    lemma_be16_of_bytes(f, s.offset + 2, v.weight);
    lemma_be16_of_bytes(f, s.offset + 4, v.port);
}

/// A start of authority that is written is read back.
pub proof fn lemma_push_soa_read(s: BufferView, v: SoaView, f: Seq<u8>)
    requires
        encoder_ok(s),
        labels_ok(v.primary_ns),
        labels_ok(v.responsible_email),
        push_soa(s, v) is Ok,
        extends(f, written(push_soa(s, v)->Ok_0)),
        f.len() <= 0xFFFF,
    ensures
        encoder_ok(push_soa(s, v)->Ok_0),
        reads_as(
            decode_soa(f, s.offset, push_soa(s, v)->Ok_0.offset - s.offset),
            v,
            push_soa(s, v)->Ok_0.domains.len(),
        ),
{
    let t = push_soa(s, v)->Ok_0;
    let n1 = label_values(v.primary_ns);
    let n2 = label_values(v.responsible_email);
    let d = soa_numbers(v);
    let a = push_name(s, n1)->Ok_0;
    let b = push_name(a, n2)->Ok_0;
    lemma_push_name_grows(s, n1);
    lemma_push_name_grows(a, n2);
    lemma_put_bytes_grows(b, d);
    lemma_extends_trans(f, written(t), written(b));
    lemma_extends_trans(f, written(b), written(a));
    lemma_push_name_read(s, n1, f);
    lemma_push_name_read(a, n2, f);
    lemma_put_bytes_read(b, d, f);
    lemma_fresh_labels(v.primary_ns);
    lemma_fresh_labels(v.responsible_email);
    let e = b.offset;
    assert forall|i: int| 0 <= i < 20 implies f[e + i] == d[i] by {}
    assert(f[e + 0] == d[0] && f[e + 1] == d[1] && f[e + 2] == d[2] && f[e + 3] == d[3]);
    assert(f[e + 4] == d[4] && f[e + 5] == d[5] && f[e + 6] == d[6] && f[e + 7] == d[7]);
    assert(f[e + 8] == d[8] && f[e + 9] == d[9] && f[e + 10] == d[10] && f[e + 11] == d[11]);
    assert(f[e + 12] == d[12] && f[e + 13] == d[13] && f[e + 14] == d[14] && f[e + 15] == d[15]);
    assert(f[e + 16] == d[16] && f[e + 17] == d[17] && f[e + 18] == d[18] && f[e + 19] == d[19]);
    lemma_be32_of_bytes(f, e, v.serial);
    lemma_be32_of_bytes(f, e + 4, v.refresh);
    lemma_be32_of_bytes(f, e + 8, v.retry);
    lemma_be32_of_bytes(f, e + 12, v.expire);
    lemma_be32_of_bytes(f, e + 16, v.minimum_ttl);
}

/// Character strings that stand written in `f` from `p` on are read back
/// from each of them on.
pub proof fn lemma_strings_read(f: Seq<u8>, p: int, v: Seq<Seq<u8>>, k: int)
    requires
        0 <= p,
        0 <= k <= v.len(),
        p + literal_len(v) <= f.len(),
        forall|j: int| 0 <= j < v.len() ==> (#[trigger] v[j]).len() <= 255,
        forall|i: int| 0 <= i < literal_len(v) ==> #[trigger] f[p + i] == literal_bytes(v)[i],
    ensures
        literal_len(v.take(k)) <= literal_len(v),
        decode_strings(f, p + literal_len(v.take(k)), p + literal_len(v)) == Some(v.skip(k)),
    decreases v.len() - k,
{
    if k == v.len() {
        assert(v.take(k) =~= v);
        assert(v.skip(k) =~= Seq::<Seq<u8>>::empty());
    } else {
        lemma_strings_read(f, p, v, k + 1);
        lemma_literal_at(v, k);
        let a = p + literal_len(v.take(k));
        let next = p + literal_len(v.take(k + 1));
        assert(v[k].len() as u8 == v[k].len());
        assert(f[p + literal_len(v.take(k))] == literal_bytes(v)[literal_len(v.take(k)) as int]);
        assert(f.subrange(a + 1, next) =~= v[k]) by {
            assert forall|i: int| 0 <= i < v[k].len() implies f.subrange(a + 1, next)[i]
                == v[k][i] by {
                let q = literal_len(v.take(k)) + 1 + i;
                assert(f[p + q] == literal_bytes(v)[q]);
                assert(literal_bytes(v).subrange(
                    literal_len(v.take(k)) as int + 1,
                    literal_len(v.take(k + 1)) as int,
                )[i] == literal_bytes(v)[q]);
            }
        }
        assert(seq![v[k]] + v.skip(k + 1) =~= v.skip(k));
    }
}

/// Character strings that are written are read back.
pub proof fn lemma_push_txt_read(s: BufferView, v: Seq<Seq<u8>>, f: Seq<u8>)
    requires
        encoder_ok(s),
        literal_len(v) >= 2,
        forall|k: int| 0 <= k < v.len() ==> (#[trigger] v[k]).len() <= 255,
        push_txt(s, v) is Ok,
        extends(f, written(push_txt(s, v)->Ok_0)),
    ensures
        encoder_ok(push_txt(s, v)->Ok_0),
        decode_txt(f, s.offset, push_txt(s, v)->Ok_0.offset - s.offset) == Ok::<
            Seq<Seq<u8>>,
            ParseError,
        >(v),
{
    lemma_put_bytes_read(s, literal_bytes(v), f);
    lemma_literal_len(v);
    lemma_strings_read(f, s.offset, v, 0);
    assert(v.take(0) =~= Seq::<Seq<u8>>::empty());
    assert(v.skip(0) =~= v);
}

/// A payload that is written is read back, as the payload of the type it
/// belongs to and of the length that was written.
pub proof fn lemma_push_rdata_read(s: BufferView, data: RecordDataView, rtype: u16, f: Seq<u8>)
    requires
        encoder_ok(s),
        rdata_ok(data, rtype),
        push_rdata(s, data) is Ok,
        extends(f, written(push_rdata(s, data)->Ok_0)),
        f.len() <= 0xFFFF,
    ensures
        encoder_ok(push_rdata(s, data)->Ok_0),
        reads_as(
            decode_rdata(f, s.offset, rtype, push_rdata(s, data)->Ok_0.offset - s.offset),
            data,
            push_rdata(s, data)->Ok_0.domains.len(),
        ),
{
    reveal(push_rdata);
    reveal(decode_rdata);
    let t = push_rdata(s, data)->Ok_0;
    let length = t.offset - s.offset;
    lemma_push_rdata_grows(s, data);
    assert(s.offset + length <= f.len());
    match data {
        RecordDataView::A(v) => {
            lemma_raw_payload_read(s, v, f);
            assert(f.subrange(s.offset, s.offset + length).take(4) =~= v);
        },
        RecordDataView::AAAA(v) => {
            lemma_raw_payload_read(s, v, f);
            assert(f.subrange(s.offset, s.offset + length).take(16) =~= v);
        },
        RecordDataView::CNAME(v) => {
            lemma_name_payload_read(s, v, f, 2);
        },
        RecordDataView::MX(v) => {
            lemma_push_mx_read(s, v, f);
        },
        RecordDataView::TXT(v) => {
            lemma_push_txt_read(s, v, f);
        },
        RecordDataView::SRV(v) => {
            lemma_push_srv_read(s, v, f);
        },
        RecordDataView::NS(v) => {
            lemma_name_payload_read(s, v, f, 0);
        },
        RecordDataView::PTR(v) => {
            lemma_name_payload_read(s, v, f, 2);
        },
        RecordDataView::SOA(v) => {
            lemma_push_soa_read(s, v, f);
        },
        RecordDataView::Unknown { record_type, data_length, raw_data } => {
            lemma_raw_payload_read(s, raw_data, f);
        },
    }
}

/// Whether `r` is a record as a message holds it.
pub open spec fn record_ok(r: RecordView) -> bool {
    labels_ok(r.name) && rdata_ok(r.data, r.rtype)
}

/// The number of octets that the payload of `r` takes when `r` is written
/// into `s`.
pub open spec fn payload_length(s: BufferView, r: RecordView) -> u16 {
    let named = push_name(s, label_values(r.name))->Ok_0;
    let fixed = put_bytes(named, record_fixed(r, 0))->Ok_0;
    let done = push_rdata(fixed, r.data)->Ok_0;
    (done.offset - fixed.offset) as u16
}

/// The record `r` as it stands on the wire after it is written into `s`:
/// with the payload length that was written for it.
pub open spec fn as_written(s: BufferView, r: RecordView) -> RecordView {
    RecordView { rdlength: payload_length(s, r), ..r }
}

/// Writing a record leaves what was written before as it is.
pub proof fn lemma_push_record_grows(s: BufferView, r: RecordView)
    requires
        0 <= s.offset,
        push_record(s, r) is Ok,
    ensures
        grows(s, push_record(s, r)->Ok_0),
        push_record(s, r)->Ok_0.offset <= s.bytes.len(),
{
    reveal(push_record);
    let name = label_values(r.name);
    let named = push_name(s, name)->Ok_0;
    let fixed = put_bytes(named, record_fixed(r, 0))->Ok_0;
    let done = push_rdata(fixed, r.data)->Ok_0;
    let t = push_record(s, r)->Ok_0;
    lemma_push_name_grows(s, name);
    lemma_put_bytes_grows(named, record_fixed(r, 0));
    lemma_push_rdata_grows(fixed, r.data);
    lemma_extends_trans(written(fixed), written(named), written(s));
    lemma_extends_trans(written(done), written(fixed), written(s));
    assert(record_fixed(r, 0).len() == 10);
    assert forall|i: int| 0 <= i < written(s).len() implies written(t)[i] == written(s)[i] by {
        assert(written(done)[i] == written(s)[i]);
        assert(t.bytes[i] == done.bytes[i]);
    }
}

/// The octets that a record is written as are those that come of
/// writing the length of its payload first, and the payload after it.
pub proof fn lemma_record_length_first(s: BufferView, r: RecordView)
    requires
        0 <= s.offset <= s.bytes.len() <= 0xFFFF,
        push_record(s, r) is Ok,
    ensures
        push_name(s, label_values(r.name)) is Ok,
        put_bytes(
            push_name(s, label_values(r.name))->Ok_0,
            record_fixed(r, payload_length(s, r)),
        ) is Ok,
        push_rdata(
            put_bytes(
                push_name(s, label_values(r.name))->Ok_0,
                record_fixed(r, payload_length(s, r)),
            )->Ok_0,
            r.data,
        ) == Ok::<BufferView, EncodeError>(push_record(s, r)->Ok_0),
        push_record(s, r)->Ok_0.offset == push_name(s, label_values(r.name))->Ok_0.offset + 10
            + payload_length(s, r),
{
    reveal(push_record);
    let name = label_values(r.name);
    let named = push_name(s, name)->Ok_0;
    let fixed = put_bytes(named, record_fixed(r, 0))->Ok_0;
    let done = push_rdata(fixed, r.data)->Ok_0;
    let t = push_record(s, r)->Ok_0;
    lemma_push_name_grows(s, name);
    lemma_put_bytes_grows(named, record_fixed(r, 0));
    lemma_push_rdata_grows(fixed, r.data);
    let length = payload_length(s, r);
    let head = record_fixed(r, length);
    let fixed2 = put_bytes(named, head)->Ok_0;
    lemma_put_bytes_grows(named, head);
    lemma_push_rdata_frame(fixed, fixed2, r.data);
    lemma_push_rdata_frame(fixed, fixed, r.data);
    let done2 = push_rdata(fixed2, r.data)->Ok_0;
    assert(done2.bytes =~= t.bytes) by {
        assert forall|i: int| 0 <= i < t.bytes.len() implies done2.bytes[i] == t.bytes[i] by {
            assert(done.bytes[i] == if fixed.offset <= i < done.offset {
                done.bytes[i]
            } else {
                fixed.bytes[i]
            });
        }
    }
}

/// The ten octets between the name and the payload of a record are read
/// as the fields they were written for.
pub proof fn lemma_record_fixed_read(f: Seq<u8>, e: int, r: RecordView, length: u16)
    requires
        0 <= e,
        e + 10 <= f.len(),
        forall|i: int| 0 <= i < 10 ==> #[trigger] f[e + i] == record_fixed(r, length)[i],
    ensures
        be16(f, e) == r.rtype,
        be16(f, e + 2) == r.class,
        be32(f, e + 4) == r.ttl,
        be16(f, e + 8) == length,
{
    let head = record_fixed(r, length);
    assert(f[e + 0] == head[0] && f[e + 1] == head[1] && f[e + 2] == head[2] && f[e + 3]
        == head[3] && f[e + 4] == head[4]);
    assert(f[e + 5] == head[5] && f[e + 6] == head[6] && f[e + 7] == head[7] && f[e + 8]
        == head[8] && f[e + 9] == head[9]);
    lemma_be16_of_bytes(f, e, r.rtype);
    lemma_be16_of_bytes(f, e + 2, r.class);
    lemma_be32_of_bytes(f, e + 4, r.ttl);
    lemma_be16_of_bytes(f, e + 8, length);
}

/// A record that is written is read back where it was written, with the
/// payload length that was written for it.
pub proof fn lemma_push_record_read(s: BufferView, r: RecordView, f: Seq<u8>)
    requires
        encoder_ok(s),
        record_ok(r),
        push_record(s, r) is Ok,
        extends(f, written(push_record(s, r)->Ok_0)),
        f.len() <= 0xFFFF,
    ensures
        encoder_ok(push_record(s, r)->Ok_0),
        reads_as(
            decode_record(f, s.offset),
            (as_written(s, r), push_record(s, r)->Ok_0.offset),
            push_record(s, r)->Ok_0.domains.len(),
        ),
{
    let name = label_values(r.name);
    let named = push_name(s, name)->Ok_0;
    let t = push_record(s, r)->Ok_0;
    let length = payload_length(s, r);
    let head = record_fixed(r, length);
    let fixed = put_bytes(named, head)->Ok_0;
    lemma_record_length_first(s, r);
    lemma_push_name_grows(s, name);
    lemma_put_bytes_grows(named, head);
    lemma_push_rdata_grows(fixed, r.data);
    lemma_extends_trans(f, written(t), written(fixed));
    lemma_extends_trans(f, written(fixed), written(named));
    lemma_push_name_read(s, name, f);
    lemma_put_bytes_read(named, head, f);
    lemma_push_rdata_read(fixed, r.data, r.rtype, f);
    lemma_fresh_labels(r.name);
    let e = named.offset;
    assert(head.len() == 10);
    lemma_record_fixed_read(f, e, r, length);
    let got = decode_name(f, s.offset, MAX_POINTER_HOPS as nat);
    let data = decode_rdata(f, e + 10, r.rtype, length as int);
    assert(fixed.offset == e + 10);
    assert(t.offset - fixed.offset == length);
    assert(reads_as(got, (name, e), t.domains.len()));
    assert(reads_as(data, r.data, t.domains.len()));
    assert(reads_as(decode_record(f, s.offset), (as_written(s, r), t.offset), t.domains.len())) by {
        reveal(decode_record);
    }
}

/// Writing a question leaves what was written before as it is.
pub proof fn lemma_push_question_grows(s: BufferView, q: QuestionView)
    requires
        0 <= s.offset,
        push_question(s, q) is Ok,
    ensures
        grows(s, push_question(s, q)->Ok_0),
        push_question(s, q)->Ok_0.offset <= s.bytes.len(),
{
    reveal(push_question);
    let name = label_values(q.qname);
    let named = push_name(s, name)->Ok_0;
    lemma_push_name_grows(s, name);
    lemma_put_bytes_grows(named, u16_bytes(q.qtype) + u16_bytes(q.qclass));
    lemma_extends_trans(written(push_question(s, q)->Ok_0), written(named), written(s));
}

/// Reading one question more is reading the questions before it, and
/// then that one.
pub proof fn lemma_decode_questions_more(f: Seq<u8>, pos: int, n: nat)
    ensures
        decode_questions(f, pos, n + 1) == match decode_questions(f, pos, n) {
            Err(e) => Err(e),
            Ok((qs, mid)) => match decode_question(f, mid) {
                Err(e) => Err(e),
                Ok((q, end)) => Ok((qs.push(q), end)),
            },
        },
    decreases n,
{
    let one = decode_question(f, pos);
    assert(decode_questions(f, pos, n + 1) == match one {
        Err(e) => Err(e),
        Ok((first, next)) => join_items(seq![first], decode_questions(f, next, n)),
    });
    if n == 0 {
        assert(decode_questions(f, pos, 0) == Ok::<(Seq<QuestionView>, int), ParseError>((Seq::empty(), pos)));
        match one {
            Err(_) => {},
            Ok((first, next)) => {
                assert(decode_questions(f, next, 0) == Ok::<(Seq<QuestionView>, int), ParseError>(
                    (Seq::empty(), next),
                ));
                assert(seq![first] + Seq::<QuestionView>::empty() =~= Seq::<QuestionView>::empty().push(
                    first,
                ));
            },
        }
    } else {
        assert(decode_questions(f, pos, n) == match one {
            Err(e) => Err(e),
            Ok((first, next)) => join_items(seq![first], decode_questions(f, next, (n - 1) as nat)),
        });
        match one {
            Err(_) => {},
            Ok((first, next)) => {
                lemma_decode_questions_more(f, next, (n - 1) as nat);
                assert(((n - 1) as nat + 1) as nat == n);
                match decode_questions(f, next, (n - 1) as nat) {
                    Err(_) => {},
                    Ok((items, mid)) => match decode_question(f, mid) {
                        Err(_) => {},
                        Ok((last, end)) => {
                            assert(seq![first] + items.push(last) =~= (seq![first] + items).push(
                                last,
                            ));
                        },
                    },
                }
            },
        }
    }
}

/// Reading one record more is reading the records before it, and then
/// that one.
pub proof fn lemma_decode_records_more(f: Seq<u8>, pos: int, n: nat)
    ensures
        decode_records(f, pos, n + 1) == match decode_records(f, pos, n) {
            Err(e) => Err(e),
            Ok((rs, mid)) => match decode_record(f, mid) {
                Err(e) => Err(e),
                Ok((r, end)) => Ok((rs.push(r), end)),
            },
        },
    decreases n,
{
    let one = decode_record(f, pos);
    assert(decode_records(f, pos, n + 1) == match one {
        Err(e) => Err(e),
        Ok((first, next)) => join_items(seq![first], decode_records(f, next, n)),
    });
    if n == 0 {
        assert(decode_records(f, pos, 0) == Ok::<(Seq<RecordView>, int), ParseError>((Seq::empty(), pos)));
        match one {
            Err(_) => {},
            Ok((first, next)) => {
                assert(decode_records(f, next, 0) == Ok::<(Seq<RecordView>, int), ParseError>(
                    (Seq::empty(), next),
                ));
                assert(seq![first] + Seq::<RecordView>::empty() =~= Seq::<RecordView>::empty().push(
                    first,
                ));
            },
        }
    } else {
        assert(decode_records(f, pos, n) == match one {
            Err(e) => Err(e),
            Ok((first, next)) => join_items(seq![first], decode_records(f, next, (n - 1) as nat)),
        });
        match one {
            Err(_) => {},
            Ok((first, next)) => {
                lemma_decode_records_more(f, next, (n - 1) as nat);
                assert(((n - 1) as nat + 1) as nat == n);
                match decode_records(f, next, (n - 1) as nat) {
                    Err(_) => {},
                    Ok((items, mid)) => match decode_record(f, mid) {
                        Err(_) => {},
                        Ok((last, end)) => {
                            assert(seq![first] + items.push(last) =~= (seq![first] + items).push(
                                last,
                            ));
                        },
                    },
                }
            },
        }
    }
}

/// Whether every question of `qs` is one as a message holds it.
pub open spec fn questions_ok(qs: Seq<QuestionView>) -> bool {
    forall|i: int| 0 <= i < qs.len() ==> question_ok(#[trigger] qs[i])
}

/// Whether every record of `rs` is one as a message holds it.
pub open spec fn records_ok(rs: Seq<RecordView>) -> bool {
    forall|i: int| 0 <= i < rs.len() ==> record_ok(#[trigger] rs[i])
}

/// The records `rs` as they stand on the wire after they are written into
/// `s`, one behind the other: each with the payload length that was written
/// for it.
pub open spec fn records_as_written(s: BufferView, rs: Seq<RecordView>) -> Seq<RecordView>
    decreases rs.len(),
{
    if rs.len() == 0 {
        Seq::empty()
    } else {
        records_as_written(s, rs.drop_last()).push(
            as_written(push_records(s, rs.drop_last())->Ok_0, rs.last()),
        )
    }
}

/// Questions that are written are read back where they were written.
pub proof fn lemma_push_questions_read(s: BufferView, qs: Seq<QuestionView>, f: Seq<u8>)
    requires
        encoder_ok(s),
        questions_ok(qs),
        push_questions(s, qs) is Ok,
        extends(f, written(push_questions(s, qs)->Ok_0)),
        f.len() <= 0xFFFF,
    ensures
        encoder_ok(push_questions(s, qs)->Ok_0),
        grows(s, push_questions(s, qs)->Ok_0),
        reads_as(
            decode_questions(f, s.offset, qs.len()),
            (qs, push_questions(s, qs)->Ok_0.offset),
            push_questions(s, qs)->Ok_0.domains.len(),
        ),
    decreases qs.len(),
{
    if qs.len() == 0 {
        assert(qs =~= Seq::<QuestionView>::empty());
    } else {
        let front = qs.drop_last();
        let mid = push_questions(s, front)->Ok_0;
        let t = push_questions(s, qs)->Ok_0;
        assert(t == push_question(mid, qs.last())->Ok_0);
        assert(0 <= mid.offset) by {
            lemma_push_questions_grows(s, front);
        }
        lemma_push_question_grows(mid, qs.last());
        lemma_extends_trans(f, written(t), written(mid));
        assert(questions_ok(front)) by {
            assert forall|i: int| 0 <= i < front.len() implies question_ok(#[trigger] front[i]) by {
                assert(front[i] == qs[i]);
            }
        }
        lemma_push_questions_read(s, front, f);
        lemma_push_question_read(mid, qs.last(), f);
        lemma_extends_trans(written(t), written(mid), written(s));
        lemma_decode_questions_more(f, s.offset, front.len());
        assert(front.push(qs.last()) =~= qs);
    }
}

/// Writing questions leaves what was written before as it is.
pub proof fn lemma_push_questions_grows(s: BufferView, qs: Seq<QuestionView>)
    requires
        0 <= s.offset,
        push_questions(s, qs) is Ok,
    ensures
        grows(s, push_questions(s, qs)->Ok_0),
        push_questions(s, qs)->Ok_0.offset <= s.bytes.len() || qs.len() == 0,
    decreases qs.len(),
{
    if qs.len() > 0 {
        let mid = push_questions(s, qs.drop_last())->Ok_0;
        lemma_push_questions_grows(s, qs.drop_last());
        lemma_push_question_grows(mid, qs.last());
        lemma_extends_trans(written(push_questions(s, qs)->Ok_0), written(mid), written(s));
    }
}

/// Writing records leaves what was written before as it is.
pub proof fn lemma_push_records_grows(s: BufferView, rs: Seq<RecordView>)
    requires
        0 <= s.offset,
        push_records(s, rs) is Ok,
    ensures
        grows(s, push_records(s, rs)->Ok_0),
    decreases rs.len(),
{
    if rs.len() > 0 {
        let mid = push_records(s, rs.drop_last())->Ok_0;
        lemma_push_records_grows(s, rs.drop_last());
        lemma_push_record_grows(mid, rs.last());
        lemma_extends_trans(written(push_records(s, rs)->Ok_0), written(mid), written(s));
    }
}

/// Records that are written are read back where they were written, each
/// with the payload length that was written for it.
pub proof fn lemma_push_records_read(s: BufferView, rs: Seq<RecordView>, f: Seq<u8>)
    requires
        encoder_ok(s),
        records_ok(rs),
        push_records(s, rs) is Ok,
        extends(f, written(push_records(s, rs)->Ok_0)),
        f.len() <= 0xFFFF,
    ensures
        encoder_ok(push_records(s, rs)->Ok_0),
        grows(s, push_records(s, rs)->Ok_0),
        reads_as(
            decode_records(f, s.offset, rs.len()),
            (records_as_written(s, rs), push_records(s, rs)->Ok_0.offset),
            push_records(s, rs)->Ok_0.domains.len(),
        ),
    decreases rs.len(),
{
    if rs.len() == 0 {
    } else {
        let front = rs.drop_last();
        let mid = push_records(s, front)->Ok_0;
        let t = push_records(s, rs)->Ok_0;
        assert(t == push_record(mid, rs.last())->Ok_0);
        lemma_push_records_grows(s, front);
        lemma_push_record_grows(mid, rs.last());
        lemma_extends_trans(f, written(t), written(mid));
        assert(records_ok(front)) by {
            assert forall|i: int| 0 <= i < front.len() implies record_ok(#[trigger] front[i]) by {
                assert(front[i] == rs[i]);
            }
        }
        lemma_push_records_read(s, front, f);
        lemma_push_record_read(mid, rs.last(), f);
        lemma_extends_trans(written(t), written(mid), written(s));
        lemma_decode_records_more(f, s.offset, front.len());
    }
}

/// The records as written are the records, but for their payload
/// lengths.
pub proof fn lemma_records_as_written(s: BufferView, rs: Seq<RecordView>)
    ensures
        records_as_written(s, rs).len() == rs.len(),
        forall|i: int|
            0 <= i < rs.len() ==> (#[trigger] records_as_written(s, rs)[i]) == (RecordView {
                rdlength: records_as_written(s, rs)[i].rdlength,
                ..rs[i]
            }),
    decreases rs.len(),
{
    if rs.len() > 0 {
        lemma_records_as_written(s, rs.drop_last());
        assert forall|i: int| 0 <= i < rs.len() implies (#[trigger] records_as_written(s, rs)[i])
            == (RecordView { rdlength: records_as_written(s, rs)[i].rdlength, ..rs[i] }) by {
            if i < rs.len() - 1 {
                assert(records_as_written(s, rs)[i] == records_as_written(s, rs.drop_last())[i]);
                assert(rs.drop_last()[i] == rs[i]);
            }
        }
    }
}

/// A header that is written is read back.
pub proof fn lemma_header_read(f: Seq<u8>, h: DNSHeader)
    requires
        HEADER_SIZE <= f.len(),
        h.flags.wf(),
        forall|i: int| 0 <= i < HEADER_SIZE ==> #[trigger] f[i] == header_bytes(h)[i],
    ensures
        header_at(f, 0) == h,
{
    let d = header_bytes(h);
    assert(f[0] == d[0] && f[1] == d[1] && f[2] == d[2] && f[3] == d[3]);
    assert(f[4] == d[4] && f[5] == d[5] && f[6] == d[6] && f[7] == d[7]);
    assert(f[8] == d[8] && f[9] == d[9] && f[10] == d[10] && f[11] == d[11]);
    lemma_flags_round_trip(h.flags);
    lemma_be16_of_bytes(f, 0, h.id);
    lemma_be16_of_bytes(f, 4, h.questions_count);
    lemma_be16_of_bytes(f, 6, h.answers_count);
    lemma_be16_of_bytes(f, 8, h.authorities_count);
    lemma_be16_of_bytes(f, 10, h.additionals_count);
    assert(flags_from_bits(f[2], f[3]) == h.flags);
}

/// Whether `m` is a message that can stand on the wire as it is: the
/// flags fit their bits, the counts of the header are the lengths of the
/// sections, every label has 1 to 63 octets and no offset, and every payload
/// is of the variant and of a length that the type of its record admits.
pub open spec fn message_ok(m: PacketView) -> bool {
    &&& m.header.flags.wf()
    &&& countable(m)
    &&& m.header == written_header(m)
    &&& questions_ok(m.questions)
    &&& records_ok(m.answers)
    &&& records_ok(m.authorities)
    &&& records_ok(m.additionals)
}

/// The message `m` as it stands on the wire after it is written into
/// `s`: every record with the payload length that was written for it.
pub open spec fn message_as_written(s: BufferView, m: PacketView) -> PacketView {
    let s0 = put_bytes(s, header_bytes(written_header(m)))->Ok_0;
    let s1 = push_questions(s0, m.questions)->Ok_0;
    let s2 = push_records(s1, m.answers)->Ok_0;
    let s3 = push_records(s2, m.authorities)->Ok_0;
    PacketView {
        header: m.header,
        questions: m.questions,
        answers: records_as_written(s1, m.answers),
        authorities: records_as_written(s2, m.authorities),
        additionals: records_as_written(s3, m.additionals),
    }
}

/// Whether the records `got` are the records `rs` but for their payload
/// lengths.
pub open spec fn same_but_lengths(got: Seq<RecordView>, rs: Seq<RecordView>) -> bool {
    &&& got.len() == rs.len()
    &&& forall|i: int|
        0 <= i < rs.len() ==> (#[trigger] got[i]) == (RecordView {
            rdlength: got[i].rdlength,
            ..rs[i]
        })
}

/// A message that is written at the start of a buffer is read back from
/// every buffer that begins with what was written; where more than
/// `MAX_POINTER_HOPS` names were kept, the reader may run out of pointer
/// hops instead.
pub proof fn lemma_message_read(s: BufferView, m: PacketView, f: Seq<u8>)
    requires
        encoder_ok(s),
        s.offset == 0,
        message_ok(m),
        push_message(s, m) is Ok,
        extends(f, written(push_message(s, m)->Ok_0)),
        f.len() <= 0xFFFF,
    ensures
        reads_as(
            decode_message(f),
            message_as_written(s, m),
            push_message(s, m)->Ok_0.domains.len(),
        ),
{
    let head = header_bytes(written_header(m));
    let s0 = put_bytes(s, head)->Ok_0;
    let s1 = push_questions(s0, m.questions)->Ok_0;
    let s2 = push_records(s1, m.answers)->Ok_0;
    let s3 = push_records(s2, m.authorities)->Ok_0;
    let t = push_records(s3, m.additionals)->Ok_0;
    assert(t == push_message(s, m)->Ok_0);
    lemma_put_bytes_grows(s, head);
    lemma_push_questions_grows(s0, m.questions);
    lemma_push_records_grows(s1, m.answers);
    lemma_push_records_grows(s2, m.authorities);
    lemma_push_records_grows(s3, m.additionals);
    lemma_extends_trans(f, written(t), written(s3));
    lemma_extends_trans(f, written(s3), written(s2));
    lemma_extends_trans(f, written(s2), written(s1));
    lemma_extends_trans(f, written(s1), written(s0));
    assert(head.len() == HEADER_SIZE);
    lemma_put_bytes_read(s, head, f);
    assert forall|i: int| 0 <= i < HEADER_SIZE implies #[trigger] f[i] == head[i] by {
        assert(f[s.offset + i] == head[i]);
    }
    lemma_header_read(f, m.header);
    lemma_push_questions_read(s0, m.questions, f);
    lemma_push_records_read(s1, m.answers, f);
    lemma_push_records_read(s2, m.authorities, f);
    lemma_push_records_read(s3, m.additionals, f);
}

/// What is written is read back.
///
/// Let `m` be a message that can stand on the wire as it is, written into
/// a buffer that nothing was written into before. Then every datagram `f`
/// that begins with what was written decodes to `m`: the same header, the
/// same questions, and in each section the same records, each with the
/// payload length that was written for it.
///
/// This holds of every message for which the encoder has kept no more
/// than `MAX_POINTER_HOPS` names. Where it has kept more, a name may be
/// chained through more pointers than a reader follows; such a message
/// decodes to `CompressionLoopExceeded`, and is left out.
pub proof fn lemma_round_trip(s: BufferView, m: PacketView, f: Seq<u8>)
    requires
        fresh(s),
        message_ok(m),
        push_message(s, m) is Ok,
        extends(f, written(push_message(s, m)->Ok_0)),
        f.len() <= 0xFFFF,
        push_message(s, m)->Ok_0.domains.len() <= MAX_POINTER_HOPS || decode_message(f) != Err::<
            PacketView,
            ParseError,
        >(ParseError::CompressionLoopExceeded),
    ensures
        decode_message(f) matches Ok(d) && {
            &&& d.header == m.header
            &&& d.questions == m.questions
            &&& same_but_lengths(d.answers, m.answers)
            &&& same_but_lengths(d.authorities, m.authorities)
            &&& same_but_lengths(d.additionals, m.additionals)
        },
{
    lemma_fresh_encoder_ok(s);
    lemma_message_read(s, m, f);
    let s0 = put_bytes(s, header_bytes(written_header(m)))->Ok_0;
    let s1 = push_questions(s0, m.questions)->Ok_0;
    let s2 = push_records(s1, m.answers)->Ok_0;
    let s3 = push_records(s2, m.authorities)->Ok_0;
    lemma_records_as_written(s1, m.answers);
    lemma_records_as_written(s2, m.authorities);
    lemma_records_as_written(s3, m.additionals);
}

/// A name that is written twice is written as a pointer the second time.
///
/// Let two questions for the same name, which is not the root, be written
/// one behind the other.
/// Then the second one takes six octets: a pointer of two octets, whose
/// first has its two top bits set and which points back before the second
/// question, then type and class. And both are read back, each where it was
/// written, with the same name, unless the reader runs out of pointer hops.
pub proof fn lemma_repeated_name_is_pointer(
    s: BufferView,
    q1: QuestionView,
    q2: QuestionView,
    f: Seq<u8>,
)
    requires
        encoder_ok(s),
        question_ok(q1),
        question_ok(q2),
        q1.qname.len() > 0,
        label_values(q1.qname) == label_values(q2.qname),
        push_question(s, q1) is Ok,
        push_question(push_question(s, q1)->Ok_0, q2) is Ok,
        extends(f, written(push_question(push_question(s, q1)->Ok_0, q2)->Ok_0)),
        f.len() <= 0xFFFF,
    ensures
        push_question(push_question(s, q1)->Ok_0, q2)->Ok_0.offset == push_question(
            s,
            q1,
        )->Ok_0.offset + 6,
        f[push_question(s, q1)->Ok_0.offset] >= 0xC0,
        pointer_target(f, push_question(s, q1)->Ok_0.offset) < push_question(s, q1)->Ok_0.offset,
        reads_as(
            decode_question(f, s.offset),
            (q1, push_question(s, q1)->Ok_0.offset),
            push_question(s, q1)->Ok_0.domains.len(),
        ),
        reads_as(
            decode_question(f, push_question(s, q1)->Ok_0.offset),
            (q2, push_question(push_question(s, q1)->Ok_0, q2)->Ok_0.offset),
            push_question(s, q1)->Ok_0.domains.len(),
        ),
        q1.qname == q2.qname,
{
    let name = label_values(q1.qname);
    let s1 = push_question(s, q1)->Ok_0;
    let s2 = push_question(s1, q2)->Ok_0;
    lemma_push_question_grows(s, q1);
    lemma_push_question_grows(s1, q2);
    lemma_extends_trans(f, written(s2), written(s1));
    lemma_push_question_read(s, q1, f);
    lemma_push_question_read(s1, q2, f);
    lemma_fresh_labels(q1.qname);
    lemma_fresh_labels(q2.qname);
    reveal(push_question);
    let named = push_name(s, name)->Ok_0;
    lemma_written_name_found(s.domains, s.offset, name);
    assert(s1.domains == named.domains);
    lemma_found_name_is_pointer(s1.domains, s1.offset, name);
    let target = match_offset(s1.domains[best_match(s1.domains, name).0], name.len());
    let again = push_name(s1, name)->Ok_0;
    assert(again.offset == s1.offset + 2);
    lemma_push_name_grows(s1, name);
    lemma_put_bytes_grows(again, u16_bytes(q2.qtype) + u16_bytes(q2.qclass));
    assert(f[s1.offset] == written(s2)[s1.offset]);
    assert(f[s1.offset + 1] == written(s2)[s1.offset + 1]);
    assert(written(s2)[s1.offset] == written(again)[s1.offset]);
    assert(written(s2)[s1.offset + 1] == written(again)[s1.offset + 1]);
    assert(written(again)[s1.offset] == pointer_bytes(target)[0]);
    assert(written(again)[s1.offset + 1] == pointer_bytes(target)[1]);
    assert(pointer_target(f, s1.offset) == target);
    lemma_best_match(s1.domains, name);
    lemma_suffix_run(s1.domains[best_match(s1.domains, name).0], name);
    assert(label_spelled(
        written(s1),
        s1.domains[best_match(s1.domains, name).0],
        s1.domains[best_match(s1.domains, name).0].len() - name.len(),
        best_match(s1.domains, name).0 as nat,
    ));
}

} // verus!
