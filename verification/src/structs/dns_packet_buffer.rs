//! The buffer of a datagram: 512 octets with a cursor, read and written in
//! network order, and domain names read from it and written into it.

use vstd::prelude::*;
use vstd::slice::slice_to_vec;
use crate::names::{
    be16, be32, best_match, decode_name, decode_string, grows, join_name, label_hit,
    lemma_best_match, lemma_literal_len, lemma_push_name_grows, lemma_splice_twice,
    lemma_suffix_run, literal_bytes, literal_len, match_offset, name_payload, name_wire,
    pointer_bytes, pointer_target, push_name, registered, splice, suffix_run, u16_bytes, u32_bytes,
    MAX_POINTER_HOPS,
};
use crate::structs::error::{EncodeError, ParseError};

verus! {

/// Number of octets in a datagram buffer.
pub const BUFFER_SIZE: usize = 512;

/// One component of a domain name.
#[derive(Debug)]
pub struct DNSLabel {
    /// The octets of the label.
    pub value: Vec<u8>,
    /// Where the label's length octet stands in an encode buffer, once it has
    /// been written there. A label without an offset is never a pointer target.
    pub offset: Option<usize>,
}

/// Mathematical content of a `DNSLabel`.
pub struct LabelView {
    pub value: Seq<u8>,
    pub offset: Option<usize>,
}

impl View for DNSLabel {
    type V = LabelView;

    open spec fn view(&self) -> LabelView {
        LabelView { value: self.value@, offset: self.offset }
    }
}

impl DeepView for DNSLabel {
    type V = LabelView;

    open spec fn deep_view(&self) -> LabelView {
        self@
    }
}

/// The labels of a name that was read from the wire: none has an offset.
pub open spec fn fresh_labels(name: Seq<Seq<u8>>) -> Seq<LabelView> {
    Seq::new(name.len(), |i: int| LabelView { value: name[i], offset: None })
}

/// The octets of each label, without the offsets.
pub open spec fn label_values(labels: Seq<LabelView>) -> Seq<Seq<u8>> {
    Seq::new(labels.len(), |i: int| labels[i].value)
}

/// Whether `a` and `b` hold the same octets.
pub fn same_octets(a: &Vec<u8>, b: &Vec<u8>) -> (r: bool)
    ensures
        r == (a@ == b@),
{
    if a.len() != b.len() {
        return false;
    }
    let mut i: usize = 0;
    while i < a.len()
        invariant
            i <= a@.len(),
            a@.len() == b@.len(),
            forall|k: int| 0 <= k < i ==> a@[k] == b@[k],
        decreases a@.len() - i,
    {
        if a[i] != b[i] {
            return false;
        }
        i += 1;
    }
    assert(a@ =~= b@);
    true
}

impl Clone for DNSLabel {
    /// A label with the same octets and the same offset.
    fn clone(&self) -> (r: Self)
        ensures
            r@ == self@,
    {
        DNSLabel { value: slice_to_vec(self.value.as_slice()), offset: self.offset }
    }
}

/// The labels of `name`, copied.
pub fn copy_labels(name: &Vec<DNSLabel>) -> (r: Vec<DNSLabel>)
    ensures
        r.deep_view() == name.deep_view(),
{
    let r = copy_labels_from(name, 0);
    assert(name.deep_view().skip(0) =~= name.deep_view());
    r
}

/// How many labels, counted from the end, the written name `entry` shares
/// with `name` without a gap.
pub fn shared_suffix(entry: &Vec<DNSLabel>, name: &Vec<DNSLabel>) -> (run: usize)
    ensures
        run == suffix_run(entry.deep_view(), label_values(name.deep_view())),
{
    let ghost e = entry.deep_view();
    let ghost n = label_values(name.deep_view());
    let elen: usize = entry.len();
    let nlen: usize = name.len();
    let mut run: usize = 0;
    let mut go: bool = true;
    proof {
        assert(e.take(elen as int) =~= e);
        assert(n.take(nlen as int) =~= n);
    }
    while go && run < elen && run < nlen
        invariant
            e == entry.deep_view(),
            n == label_values(name.deep_view()),
            elen == e.len(),
            nlen == n.len(),
            run <= elen,
            run <= nlen,
            suffix_run(e, n) == run + suffix_run(e.take(elen - run), n.take(nlen - run)),
            !go ==> suffix_run(e.take(elen - run), n.take(nlen - run)) == 0,
        decreases (if go { 1int } else { 0int }) + elen - run,
    {
        let written: &DNSLabel = &entry[elen - 1 - run];
        let wanted: &DNSLabel = &name[nlen - 1 - run];
        let ghost et = e.take(elen - run);
        let ghost nt = n.take(nlen - run);
        proof {
            assert(et.last() == written@);
            assert(nt.last() == wanted.value@);
            assert(et.drop_last() =~= e.take(elen - run - 1));
            assert(nt.drop_last() =~= n.take(nlen - run - 1));
        }
        if written.offset.is_some() && same_octets(&written.value, &wanted.value) {
            run += 1;
        } else {
            go = false;
        }
    }
    run
}

/// A fixed buffer of 512 octets with a cursor, and the names written so far.
pub struct DNSPacketBuffer {
    /// The octets of the datagram.
    pub buffer: [u8; 512],
    /// The cursor: the next octet to read or to write.
    pub offset: usize,
    /// The names written into this buffer, each label with its offset.
    pub domains: Vec<Vec<DNSLabel>>,
}

/// Mathematical content of a `DNSPacketBuffer`.
pub struct BufferView {
    pub bytes: Seq<u8>,
    pub offset: int,
    pub domains: Seq<Seq<LabelView>>,
}

impl View for DNSPacketBuffer {
    type V = BufferView;

    open spec fn view(&self) -> BufferView {
        BufferView {
            bytes: self.buffer@,
            offset: self.offset as int,
            domains: self.domains.deep_view(),
        }
    }
}

impl DNSPacketBuffer {
    /// The cursor stands inside the buffer or at its end.
    pub open spec fn wf(&self) -> bool {
        self.offset <= BUFFER_SIZE
    }

    /// A buffer over `buffer`, the cursor at its start, no name written.
    pub fn new(buffer: [u8; 512]) -> (r: Self)
        ensures
            r.buffer == buffer,
            r.offset == 0,
            r.domains@.len() == 0,
            r@.domains.len() == 0,
            r.wf(),
    {
        Self { buffer, offset: 0, domains: Vec::new() }
    }

    /// A buffer that begins with the octets of `buffer` and is zero after them.
    pub fn small(buffer: &[u8]) -> (r: Self)
        requires
            buffer@.len() <= BUFFER_SIZE,
        ensures
            r.buffer@ == splice(Seq::new(512, |i: int| 0u8), 0, buffer@),
            r.offset == 0,
            r.domains@.len() == 0,
            r@.domains.len() == 0,
            r.wf(),
    {
        let mut nbuffer: [u8; 512] = [0u8; 512];
        let mut i: usize = 0;
        while i < buffer.len()
            invariant
                i <= buffer@.len() <= BUFFER_SIZE,
                forall|k: int| 0 <= k < i ==> nbuffer@[k] == buffer@[k],
                forall|k: int| i <= k < 512 ==> nbuffer@[k] == 0,
            decreases buffer@.len() - i,
        {
            nbuffer[i] = buffer[i];
            i += 1;
        }
        assert(nbuffer@ =~= splice(Seq::new(512, |i: int| 0u8), 0, buffer@));
        Self { buffer: nbuffer, offset: 0, domains: Vec::new() }
    }

    /// The next `size` octets, without copying; the cursor moves behind them.
    pub fn next_chunk(&mut self, size: usize) -> (chunk: &[u8])
        requires
            old(self).offset + size <= BUFFER_SIZE,
        ensures
            chunk@ == old(self).buffer@.subrange(
                old(self).offset as int,
                old(self).offset + size,
            ),
            final(self).offset == old(self).offset + size,
            final(self).buffer == old(self).buffer,
            final(self).domains == old(self).domains,
    {
        let start: usize = self.offset;
        self.offset += size;
        &self.buffer[start..start + size]
    }

    /// Reads two octets as a big-endian number.
    pub fn read_u16(&mut self) -> (val: u16)
        requires
            old(self).offset + 2 <= BUFFER_SIZE,
        ensures
            val == be16(old(self).buffer@, old(self).offset as int),
            final(self).offset == old(self).offset + 2,
            final(self).buffer == old(self).buffer,
            final(self).domains == old(self).domains,
    {
        let hi: u8 = self.buffer[self.offset];
        let lo: u8 = self.buffer[self.offset + 1];
        assert(((hi as u16) << 8) | (lo as u16) == hi as u16 * 256 + lo as u16) by (bit_vector);
        let val: u16 = ((hi as u16) << 8) | (lo as u16);
        self.offset += 2;
        val
    }

    /// Reads four octets as a big-endian number.
    pub fn read_u32(&mut self) -> (val: u32)
        requires
            old(self).offset + 4 <= BUFFER_SIZE,
        ensures
            val == be32(old(self).buffer@, old(self).offset as int),
            final(self).offset == old(self).offset + 4,
            final(self).buffer == old(self).buffer,
            final(self).domains == old(self).domains,
    {
        let a: u8 = self.buffer[self.offset];
        let b: u8 = self.buffer[self.offset + 1];
        let c: u8 = self.buffer[self.offset + 2];
        let d: u8 = self.buffer[self.offset + 3];
        assert(((a as u32) << 24) | ((b as u32) << 16) | ((c as u32) << 8) | (d as u32) == a as u32
            * 16777216 + b as u32 * 65536 + c as u32 * 256 + d as u32) by (bit_vector);
        let val: u32 = ((a as u32) << 24) | ((b as u32) << 16) | ((c as u32) << 8) | (d as u32);
        self.offset += 4;
        val
    }

    /// Writes one octet at the cursor.
    pub fn write_u8(&mut self, val: u8)
        requires
            old(self).offset + 1 <= BUFFER_SIZE,
        ensures
            final(self).buffer@ == splice(old(self).buffer@, old(self).offset as int, seq![val]),
            final(self).offset == old(self).offset + 1,
            final(self).domains == old(self).domains,
    {
        self.buffer[self.offset] = val;
        self.offset += 1;
        assert(self.buffer@ =~= splice(old(self).buffer@, old(self).offset as int, seq![val]));
    }

    /// Writes `val` at the cursor, most significant octet first.
    pub fn write_u16(&mut self, val: u16)
        requires
            old(self).offset + 2 <= BUFFER_SIZE,
        ensures
            final(self).buffer@ == splice(
                old(self).buffer@,
                old(self).offset as int,
                u16_bytes(val),
            ),
            final(self).offset == old(self).offset + 2,
            final(self).domains == old(self).domains,
    {
        assert((val >> 8) as u8 == (val / 256) as u8) by (bit_vector);
        assert((val & 0x00FF) as u8 == (val % 256) as u8) by (bit_vector);
        self.buffer[self.offset] = (val >> 8) as u8;
        self.offset += 1;
        self.buffer[self.offset] = (val & 0x00FF) as u8;
        self.offset += 1;
        assert(self.buffer@ =~= splice(old(self).buffer@, old(self).offset as int, u16_bytes(val)));
    }

    /// Writes `val` at the cursor, most significant octet first.
    pub fn write_u32(&mut self, val: u32)
        requires
            old(self).offset + 4 <= BUFFER_SIZE,
        ensures
            final(self).buffer@ == splice(
                old(self).buffer@,
                old(self).offset as int,
                u32_bytes(val),
            ),
            final(self).offset == old(self).offset + 4,
            final(self).domains == old(self).domains,
    {
        assert((val >> 24) as u8 == (val / 16777216) as u8) by (bit_vector);
        assert((val >> 16) as u8 == ((val / 65536) % 256) as u8) by (bit_vector);
        assert((val >> 8) as u8 == ((val / 256) % 256) as u8) by (bit_vector);
        assert((val & 0x0000_00FF) as u8 == (val % 256) as u8) by (bit_vector);
        self.buffer[self.offset] = (val >> 24) as u8;
        self.offset += 1;
        self.buffer[self.offset] = (val >> 16) as u8;
        self.offset += 1;
        self.buffer[self.offset] = (val >> 8) as u8;
        self.offset += 1;
        self.buffer[self.offset] = (val & 0x0000_00FF) as u8;
        self.offset += 1;
        assert(self.buffer@ =~= splice(old(self).buffer@, old(self).offset as int, u32_bytes(val)));
    }

    /// Writes `val` at offset `at`, most significant octet first, and
    /// leaves the cursor where it is.
    pub fn patch_u16(&mut self, at: usize, val: u16)
        requires
            at + 2 <= BUFFER_SIZE,
        ensures
            final(self).buffer@ == splice(old(self).buffer@, at as int, u16_bytes(val)),
            final(self).offset == old(self).offset,
            final(self).domains == old(self).domains,
    {
        self.buffer[at] = (val / 256) as u8;
        self.buffer[at + 1] = (val % 256) as u8;
        assert(self.buffer@ =~= splice(old(self).buffer@, at as int, u16_bytes(val)));
    }

    /// Writes the octets of `bytes` at the cursor.
    pub fn write_bytes(&mut self, bytes: &[u8])
        requires
            old(self).offset + bytes@.len() <= BUFFER_SIZE,
        ensures
            final(self).buffer@ == splice(old(self).buffer@, old(self).offset as int, bytes@),
            final(self).offset == old(self).offset + bytes@.len(),
            final(self).domains == old(self).domains,
    {
        let start: usize = self.offset;
        let mut i: usize = 0;
        while i < bytes.len()
            invariant
                i <= bytes@.len(),
                start + bytes@.len() <= BUFFER_SIZE,
                start == old(self).offset,
                self.offset == start,
                self.domains == old(self).domains,
                self.buffer@ == splice(old(self).buffer@, start as int, bytes@.take(i as int)),
            decreases bytes@.len() - i,
        {
            self.buffer[start + i] = bytes[i];
            i += 1;
            assert(self.buffer@ =~= splice(old(self).buffer@, start as int, bytes@.take(i as int)));
        }
        assert(bytes@.take(i as int) =~= bytes@);
        self.offset = start + bytes.len();
    }

    /// Whether at least `size` octets are left between the cursor and the end.
    pub fn remaining_bytes(&self, size: usize) -> (r: bool)
        ensures
            r == (self.offset + size <= BUFFER_SIZE),
    {
        self.offset <= BUFFER_SIZE && size <= BUFFER_SIZE - self.offset
    }

    /// The octets before the cursor: what has been written.
    pub fn response_bytes(&self) -> (r: &[u8])
        requires
            self.wf(),
        ensures
            r@ == self.buffer@.take(self.offset as int),
    {
        &self.buffer[0..self.offset]
    }

    /// The buffer up to and with its last octet that is not zero; its first
    /// octet alone where all are zero.
    pub fn base_packet(&self) -> (r: &[u8])
        ensures
            1 <= r@.len() <= BUFFER_SIZE,
            r@ == self.buffer@.take(r@.len() as int),
            forall|k: int| r@.len() <= k < BUFFER_SIZE ==> self.buffer@[k] == 0,
            r@.len() > 1 ==> r@[r@.len() - 1] != 0,
    {
        let mut last: usize = 0;
        let mut i: usize = 0;
        while i < 512
            invariant
                i <= 512,
                last < 512,
                last <= i,
                forall|k: int| last < k < i ==> self.buffer@[k] == 0,
                last > 0 ==> self.buffer@[last as int] != 0,
            decreases 512 - i,
        {
            if self.buffer[i] != 0 {
                last = i;
            }
            i += 1;
        }
        &self.buffer[0..last + 1]
    }

    /// Reads the domain name at the cursor.
    ///
    /// A pointer is followed within this buffer, at most `MAX_POINTER_HOPS`
    /// times for the whole name. On success the labels come without offsets
    /// and the cursor stands behind the name as it is written at the call
    /// site: behind its terminating zero, or behind its first pointer. On
    /// failure the buffer is left as it was.
    pub fn parse_labels(&mut self) -> (r: Result<Vec<DNSLabel>, ParseError>)
        ensures
            match decode_name(
                old(self).buffer@,
                old(self).offset as int,
                MAX_POINTER_HOPS as nat,
            ) {
                Ok((name, end)) => {
                    &&& r matches Ok(labels)
                    &&& labels.deep_view() == fresh_labels(name)
                    &&& final(self).offset == end
                    &&& final(self).buffer == old(self).buffer
                    &&& final(self).domains == old(self).domains
                },
                Err(e) => r == Err::<Vec<DNSLabel>, ParseError>(e) && *final(self) == *old(self),
            },
    {
        let mut labels: Vec<DNSLabel> = Vec::new();
        if self.offset >= BUFFER_SIZE {
            return Err(ParseError::TruncatedMessage);
        }
        let mut cur: usize = self.offset;
        let mut hops: usize = 0;
        let mut resume: Option<usize> = None;
        let ghost buf = self.buffer@;
        let ghost start = self.offset as int;
        let ghost done: Seq<Seq<u8>> = Seq::empty();
        proof {
            let all = decode_name(buf, start, MAX_POINTER_HOPS as nat);
            if all is Ok {
                assert(done + all->Ok_0.0 =~= all->Ok_0.0);
            }
        }
        loop
            invariant
                *self == *old(self),
                buf == self.buffer@,
                start == self.offset,
                hops <= MAX_POINTER_HOPS,
                cur <= 16384,
                labels.deep_view() == fresh_labels(done),
                decode_name(buf, start, MAX_POINTER_HOPS as nat) == join_name(
                    done,
                    decode_name(buf, cur as int, (MAX_POINTER_HOPS - hops) as nat),
                    match resume {
                        Some(p) => Some(p as int),
                        None => None,
                    },
                ),
            ensures
                cur < 512,
                buf[cur as int] == 0,
            decreases MAX_POINTER_HOPS - hops, 16384 - cur,
        {
            if cur >= 512 {
                return Err(ParseError::TruncatedMessage);
            }
            let b: u8 = self.buffer[cur];
            if b == 0 {
                break;
            }
            if b >= 0xC0 {
                if hops >= MAX_POINTER_HOPS {
                    return Err(ParseError::CompressionLoopExceeded);
                }
                if cur + 1 >= 512 {
                    return Err(ParseError::TruncatedMessage);
                }
                let low: u8 = self.buffer[cur + 1];
                let target: usize = (b - 0xC0) as usize * 256 + low as usize;
                assert(target == pointer_target(buf, cur as int));
                if resume.is_none() {
                    resume = Some(cur + 2);
                }
                hops += 1;
                cur = target;
            } else {
                let next: usize = cur + 1 + b as usize;
                if next > 512 {
                    return Err(ParseError::TruncatedMessage);
                }
                let value: Vec<u8> = slice_to_vec(&self.buffer[cur + 1..next]);
                proof {
                    let rest = decode_name(buf, next as int, (MAX_POINTER_HOPS - hops) as nat);
                    if rest is Ok {
                        assert((done + seq![value@]) + rest->Ok_0.0 =~= done + (seq![value@]
                            + rest->Ok_0.0));
                    }
                    assert(labels.deep_view().push(LabelView { value: value@, offset: None })
                        =~= fresh_labels(done + seq![value@]));
                    done = done + seq![value@];
                }
                let ghost before = labels.deep_view();
                labels.push(DNSLabel { value, offset: None });
                assert(labels.deep_view() =~= before.push(
                    LabelView { value: value@, offset: None },
                ));
                cur = next;
            }
        }
        proof {
            assert(done + Seq::<Seq<u8>>::empty() =~= done);
        }
        self.offset = match resume {
            Some(p) => p,
            None => cur + 1,
        };
        Ok(labels)
    }

    /// Reads a domain name that fills a payload of `data_length` octets at
    /// the cursor, of which there must be at least `least`. On success the
    /// cursor stands behind the payload; on failure the buffer is left as it
    /// was.
    pub fn parse_name_payload(&mut self, data_length: usize, least: usize) -> (r: Result<
        Vec<DNSLabel>,
        ParseError,
    >)
        ensures
            match name_payload(
                old(self).buffer@,
                old(self).offset as int,
                data_length as int,
                least as int,
            ) {
                Ok(name) => {
                    &&& r matches Ok(labels)
                    &&& labels.deep_view() == fresh_labels(name)
                    &&& final(self).offset == old(self).offset + data_length
                    &&& final(self).buffer == old(self).buffer
                    &&& final(self).domains == old(self).domains
                },
                Err(e) => r == Err::<Vec<DNSLabel>, ParseError>(e) && *final(self) == *old(self),
            },
    {
        if !self.remaining_bytes(data_length) || data_length < least {
            return Err(ParseError::PayloadLengthMismatch);
        }
        let start: usize = self.offset;
        let labels: Vec<DNSLabel> = match self.parse_labels() {
            Ok(l) => l,
            Err(e) => {
                return Err(e);
            },
        };
        if self.offset != start + data_length {
            self.offset = start;
            return Err(ParseError::PayloadLengthMismatch);
        }
        Ok(labels)
    }

    /// Reads a character string at the cursor: one octet of length, then
    /// that many octets. On failure the buffer is left as it was.
    pub fn read_character_string(&mut self) -> (r: Result<Vec<u8>, ParseError>)
        ensures
            match decode_string(old(self).buffer@, old(self).offset as int) {
                Ok((string, end)) => {
                    &&& r matches Ok(octets)
                    &&& octets@ == string
                    &&& final(self).offset == end
                    &&& final(self).buffer == old(self).buffer
                    &&& final(self).domains == old(self).domains
                },
                Err(e) => r == Err::<Vec<u8>, ParseError>(e) && *final(self) == *old(self),
            },
    {
        if self.offset >= BUFFER_SIZE {
            return Err(ParseError::TruncatedMessage);
        }
        let len: usize = self.buffer[self.offset] as usize;
        if len > BUFFER_SIZE - self.offset - 1 {
            return Err(ParseError::TruncatedMessage);
        }
        let start: usize = self.offset + 1;
        self.offset = start + len;
        Ok(slice_to_vec(&self.buffer[start..start + len]))
    }

    /// The written name that shares the longest run of trailing labels
    /// with `labels`: its index, and the length of the run.
    fn find_match(&self, labels: &Vec<DNSLabel>) -> (m: (usize, usize))
        ensures
            (m.0 as int, m.1 as nat) == best_match(
                self.domains.deep_view(),
                label_values(labels.deep_view()),
            ),
    {
        let ghost name = label_values(labels.deep_view());
        let ghost domains = self.domains.deep_view();
        let mut best_idx: usize = 0;
        let mut best_run: usize = 0;
        let mut d: usize = 0;
        proof {
            assert(domains.take(0) =~= Seq::empty());
        }
        while d < self.domains.len()
            invariant
                domains == self.domains.deep_view(),
                name == label_values(labels.deep_view()),
                d <= domains.len(),
                (best_idx as int, best_run as nat) == best_match(domains.take(d as int), name),
            decreases domains.len() - d,
        {
            let run: usize = shared_suffix(&self.domains[d], labels);
            proof {
                let upto = domains.take(d + 1);
                assert(upto.drop_last() =~= domains.take(d as int));
                assert(upto.last() == domains[d as int]);
            }
            if run > best_run {
                best_run = run;
                best_idx = d;
            }
            d += 1;
        }
        proof {
            assert(domains.take(d as int) =~= domains);
        }
        (best_idx, best_run)
    }

    /// Writes the first `count` labels of `labels` at the cursor, each behind
    /// its length, and returns them with the offsets they now have.
    fn write_literals(&mut self, labels: &Vec<DNSLabel>, count: usize) -> (entry: Vec<DNSLabel>)
        requires
            count <= labels@.len(),
            forall|k: int|
                0 <= k < count ==> (#[trigger] label_values(labels.deep_view())[k]).len() <= 63,
            old(self).offset + literal_len(label_values(labels.deep_view()).take(count as int))
                <= BUFFER_SIZE,
        ensures
            final(self).buffer@ == splice(
                old(self).buffer@,
                old(self).offset as int,
                literal_bytes(label_values(labels.deep_view()).take(count as int)),
            ),
            final(self).offset == old(self).offset + literal_len(
                label_values(labels.deep_view()).take(count as int),
            ),
            final(self).domains == old(self).domains,
            entry.deep_view() == registered(
                label_values(labels.deep_view()).take(count as int),
                old(self).offset as int,
                Seq::empty(),
            ),
    {
        let ghost lead = label_values(labels.deep_view()).take(count as int);
        let ghost start = self.offset as int;
        let mut entry: Vec<DNSLabel> = Vec::new();
        let mut i: usize = 0;
        proof {
            assert(self.buffer@ =~= splice(old(self).buffer@, start, literal_bytes(lead.take(0))));
            lemma_literal_prefix(lead, 0);
        }
        while i < count
            invariant
                lead == label_values(labels.deep_view()).take(count as int),
                count <= labels@.len(),
                i <= count,
                start == old(self).offset,
                forall|k: int| 0 <= k < count ==> (#[trigger] lead[k]).len() <= 63,
                start + literal_len(lead) <= BUFFER_SIZE,
                literal_len(lead.take(i as int)) <= literal_len(lead),
                self.offset == start + literal_len(lead.take(i as int)),
                self.buffer@ == splice(old(self).buffer@, start, literal_bytes(lead.take(i as int))),
                self.domains == old(self).domains,
                entry.deep_view() == registered(lead, start, Seq::empty()).take(i as int),
            decreases count - i,
        {
            let label: &DNSLabel = &labels[i];
            let len: usize = label.value.len();
            let at: usize = self.offset;
            let ghost written = literal_bytes(lead.take(i as int));
            proof {
                assert(lead[i as int] == label.value@);
                assert(lead.take(i + 1).drop_last() =~= lead.take(i as int));
                assert(lead.take(i + 1).last() == lead[i as int]);
                lemma_literal_len(lead.take(i as int));
                lemma_literal_prefix(lead, i + 1);
            }
            self.write_u8(len as u8);
            self.write_bytes(label.value.as_slice());
            proof {
                lemma_splice_twice(old(self).buffer@, start, written, seq![len as u8]);
                lemma_splice_twice(
                    old(self).buffer@,
                    start,
                    written + seq![len as u8],
                    label.value@,
                );
            }
            let ghost before = entry.deep_view();
            let item = DNSLabel { value: slice_to_vec(label.value.as_slice()), offset: Some(at) };
            entry.push(item);
            i += 1;
            assert(entry.deep_view() =~= before.push(item@));
            assert(entry.deep_view() =~= registered(lead, start, Seq::empty()).take(i as int));
        }
        proof {
            assert(lead.take(count as int) =~= lead);
            assert(registered(lead, start, Seq::empty()).take(count as int) =~= registered(
                lead,
                start,
                Seq::empty(),
            ));
        }
        entry
    }

    /// Writes a domain name at the cursor, compressed against the names
    /// written before it.
    ///
    /// The longest run of trailing labels that a written name shares with
    /// `labels` becomes a two-octet pointer; the labels before the run are
    /// written behind their lengths and kept, with their offsets, as a new
    /// written name. A name without such a run ends in a zero octet. Nothing
    /// is written unless the whole name fits.
    pub fn push_labels(&mut self, labels: &Vec<DNSLabel>) -> (r: Result<(), EncodeError>)
        ensures
            match push_name(old(self)@, label_values(labels.deep_view())) {
                Ok(s) => r is Ok && final(self)@ == s,
                Err(e) => r == Err::<(), EncodeError>(e) && *final(self) == *old(self),
            },
            grows(old(self)@, final(self)@),
    {
        let ghost name = label_values(labels.deep_view());
        proof {
            if push_name(self@, name) is Ok {
                lemma_push_name_grows(self@, name);
            }
        }
        let ghost domains = self.domains.deep_view();
        let ghost start = self.offset as int;
        let (best_idx, best_run) = self.find_match(labels);
        proof {
            reveal(name_wire);
            lemma_best_match(domains, name);
            if best_run > 0 {
                lemma_suffix_run(domains[best_idx as int], name);
            }
        }
        let lead_len: usize = labels.len() - best_run;
        let ghost lead = name.take(lead_len as int);
        let mut target: usize = 0;
        let mut tail: Vec<DNSLabel> = Vec::new();
        if best_run > 0 {
            let first: usize = self.domains[best_idx].len() - best_run;
            assert(label_hit(
                domains[best_idx as int][domains[best_idx as int].len() - 1 - (best_run - 1)],
                name[name.len() - 1 - (best_run - 1)],
            ));
            target = match self.domains[best_idx][first].offset {
                Some(o) => o,
                None => 0,
            };
            assert(target == match_offset(domains[best_idx as int], best_run as nat));
            if target > 0x3FFF {
                return Err(EncodeError::NameTooLargeToCompress);
            }
            tail = copy_labels_from(&self.domains[best_idx], first);
        }
        let total: usize = match literal_size(labels, lead_len) {
            Some(t) => t,
            None => {
                return Err(EncodeError::NameTooLong);
            },
        };
        let tail_len: usize = if best_run > 0 {
            2
        } else {
            1
        };
        if self.offset > BUFFER_SIZE || total > 512 || total + tail_len > BUFFER_SIZE - self.offset {
            proof {
                lemma_literal_len(lead);
            }
            return Err(EncodeError::TruncatedMessage);
        }
        let mut entry: Vec<DNSLabel> = self.write_literals(labels, lead_len);
        let ghost body = literal_bytes(lead);
        proof {
            lemma_literal_len(lead);
        }
        if best_run > 0 {
            self.write_u8((0xC0 + target / 256) as u8);
            self.write_u8((target % 256) as u8);
            proof {
                let hi = seq![(0xC0 + target / 256) as u8];
                let lo = seq![(target % 256) as u8];
                lemma_splice_twice(old(self).buffer@, start, body, hi);
                lemma_splice_twice(old(self).buffer@, start, body + hi, lo);
                assert(body + hi + lo =~= body + pointer_bytes(target));
            }
        } else {
            self.write_u8(0);
            proof {
                lemma_splice_twice(old(self).buffer@, start, body, seq![0u8]);
            }
        }
        if lead_len > 0 {
            let ghost front = entry.deep_view();
            let ghost back = tail.deep_view();
            entry.append(&mut tail);
            assert(entry.deep_view() =~= front + back);
            let ghost kept = entry.deep_view();
            self.domains.push(entry);
            assert(self.domains.deep_view() =~= domains.push(kept));
        }
        Ok(())
    }
}

/// The labels of `entry` from index `first` on, copied.
fn copy_labels_from(entry: &Vec<DNSLabel>, first: usize) -> (tail: Vec<DNSLabel>)
    requires
        first <= entry@.len(),
    ensures
        tail.deep_view() == entry.deep_view().skip(first as int),
{
    let mut tail: Vec<DNSLabel> = Vec::new();
    let mut j: usize = first;
    while j < entry.len()
        invariant
            first <= j <= entry@.len(),
            tail.deep_view() == entry.deep_view().subrange(first as int, j as int),
        decreases entry@.len() - j,
    {
        let ghost before = tail.deep_view();
        tail.push(entry[j].clone());
        assert(tail.deep_view() =~= before.push(entry[j as int]@));
        j += 1;
        assert(tail.deep_view() =~= entry.deep_view().subrange(first as int, j as int));
    }
    assert(tail.deep_view() =~= entry.deep_view().skip(first as int));
    tail
}

/// The number of octets that the first `count` labels of `labels` take when
/// each is written behind its length, given as 513 where it is more than
/// 512; `None` where one of them is longer than 63 octets.
fn literal_size(labels: &Vec<DNSLabel>, count: usize) -> (r: Option<usize>)
    requires
        count <= labels@.len(),
    ensures
        match r {
            Some(total) => {
                &&& forall|k: int|
                    0 <= k < count ==> (#[trigger] label_values(labels.deep_view())[k]).len() <= 63
                &&& total == if literal_len(label_values(labels.deep_view()).take(count as int))
                    > 512 {
                    513
                } else {
                    literal_len(label_values(labels.deep_view()).take(count as int)) as int
                }
            },
            None => exists|k: int|
                0 <= k < count && (#[trigger] label_values(labels.deep_view()).take(
                    count as int,
                )[k]).len() > 63,
        },
{
    let ghost lead = label_values(labels.deep_view()).take(count as int);
    let mut total: usize = 0;
    let mut i: usize = 0;
    while i < count
        invariant
            lead == label_values(labels.deep_view()).take(count as int),
            count <= labels@.len(),
            i <= count,
            forall|k: int| 0 <= k < i ==> (#[trigger] lead[k]).len() <= 63,
            total <= 513,
            total == if literal_len(lead.take(i as int)) > 512 {
                513
            } else {
                literal_len(lead.take(i as int)) as int
            },
        decreases count - i,
    {
        let len: usize = labels[i].value.len();
        assert(lead[i as int] == labels[i as int].value@);
        if len > 63 {
            return None;
        }
        proof {
            assert(lead.take(i + 1).drop_last() =~= lead.take(i as int));
            assert(lead.take(i + 1).last() == lead[i as int]);
        }
        if total <= 512 {
            total = total + 1 + len;
            if total > 512 {
                total = 513;
            }
        }
        i += 1;
    }
    proof {
        assert(lead.take(count as int) =~= lead);
        assert forall|k: int| 0 <= k < count implies (#[trigger] label_values(
            labels.deep_view(),
        )[k]).len() <= 63 by {
            assert(lead[k] == label_values(labels.deep_view())[k]);
        }
    }
    Some(total)
}

/// The octets of the first `k` labels are no more than those of all.
pub proof fn lemma_literal_prefix(labels: Seq<Seq<u8>>, k: int)
    requires
        0 <= k <= labels.len(),
    ensures
        literal_len(labels.take(k)) <= literal_len(labels),
    decreases labels.len(),
{
    if k < labels.len() {
        assert(labels.drop_last().take(k) =~= labels.take(k));
        lemma_literal_prefix(labels.drop_last(), k);
    } else {
        assert(labels.take(k) =~= labels);
    }
}

} // verus!
