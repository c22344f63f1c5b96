//! The wire form of domain names, as mathematics: what a run of octets spells
//! when it is read as a name, and which octets a name is written as.

use vstd::prelude::*;
use crate::structs::dns_packet_buffer::{BufferView, LabelView};
use crate::structs::error::{EncodeError, ParseError};

verus! {

/// How many compression pointers a decoder follows within one name.
pub const MAX_POINTER_HOPS: usize = 10;

/// The big-endian 16-bit number at `pos`.
pub open spec fn be16(buf: Seq<u8>, pos: int) -> u16 {
    (buf[pos] as int * 256 + buf[pos + 1] as int) as u16
}

/// The big-endian 32-bit number at `pos`.
pub open spec fn be32(buf: Seq<u8>, pos: int) -> u32 {
    (buf[pos] as int * 16777216 + buf[pos + 1] as int * 65536 + buf[pos + 2] as int * 256
        + buf[pos + 3] as int) as u32
}

/// The two octets of `v`, most significant first.
pub open spec fn u16_bytes(v: u16) -> Seq<u8> {
    seq![(v / 256) as u8, (v % 256) as u8]
}

/// The four octets of `v`, most significant first.
pub open spec fn u32_bytes(v: u32) -> Seq<u8> {
    seq![
        (v / 16777216) as u8,
        ((v / 65536) % 256) as u8,
        ((v / 256) % 256) as u8,
        (v % 256) as u8,
    ]
}

/// `buf` with the octets of `data` standing from `at` on.
pub open spec fn splice(buf: Seq<u8>, at: int, data: Seq<u8>) -> Seq<u8> {
    Seq::new(
        buf.len(),
        |i: int|
            if at <= i < at + data.len() {
                data[i - at]
            } else {
                buf[i]
            },
    )
}

/// The offset that the pointer at `pos` names: the low 14 bits of its two octets.
pub open spec fn pointer_target(buf: Seq<u8>, pos: int) -> int {
    (buf[pos] as int - 0xC0) * 256 + buf[pos + 1] as int
}

/// The name that stands at `pos`, and where the reader is left after it.
///
/// A zero octet ends the name. An octet of `0xC0` or more starts a two-octet
/// pointer: reading goes on at the offset it names, and costs one of the
/// `fuel` hops that are left. Any other octet is the length of a label that
/// follows it. The reader is left behind the terminating zero, or, once a
/// pointer was followed, behind the first pointer.
pub open spec fn decode_name(buf: Seq<u8>, pos: int, fuel: nat) -> Result<
    (Seq<Seq<u8>>, int),
    ParseError,
>
    decreases fuel, buf.len() - pos,
{
    if pos < 0 || pos >= buf.len() {
        Err(ParseError::TruncatedMessage)
    } else if buf[pos] == 0 {
        Ok((Seq::empty(), pos + 1))
    } else if buf[pos] >= 0xC0 {
        if fuel == 0 {
            Err(ParseError::CompressionLoopExceeded)
        } else if pos + 1 >= buf.len() {
            Err(ParseError::TruncatedMessage)
        } else {
            match decode_name(buf, pointer_target(buf, pos), (fuel - 1) as nat) {
                Ok((labels, _)) => Ok((labels, pos + 2)),
                Err(e) => Err(e),
            }
        }
    } else {
        let next = pos + 1 + buf[pos] as int;
        if next > buf.len() {
            Err(ParseError::TruncatedMessage)
        } else {
            match decode_name(buf, next, fuel) {
                Ok((labels, end)) => Ok((seq![buf.subrange(pos + 1, next)] + labels, end)),
                Err(e) => Err(e),
            }
        }
    }
}

/// The character string that stands at `pos`, and where the reader is left
/// after it: one octet of length, then that many octets.
pub open spec fn decode_string(buf: Seq<u8>, pos: int) -> Result<(Seq<u8>, int), ParseError> {
    if pos < 0 || pos >= buf.len() || pos + 1 + buf[pos] as int > buf.len() {
        Err(ParseError::TruncatedMessage)
    } else {
        Ok((buf.subrange(pos + 1, pos + 1 + buf[pos] as int), pos + 1 + buf[pos] as int))
    }
}

/// The name that fills the `length` octets of payload from `pos` on.
///
/// The payload must lie within the buffer and have at least `least` octets,
/// and the name, as it is written at `pos`, must end where the payload ends.
/// Its pointers are followed within the whole buffer.
pub open spec fn name_payload(buf: Seq<u8>, pos: int, length: int, least: int) -> Result<
    Seq<Seq<u8>>,
    ParseError,
> {
    if pos + length > buf.len() || length < least {
        Err(ParseError::PayloadLengthMismatch)
    } else {
        match decode_name(buf, pos, MAX_POINTER_HOPS as nat) {
            Err(e) => Err(e),
            Ok((name, end)) => if end != pos + length {
                Err(ParseError::PayloadLengthMismatch)
            } else {
                Ok(name)
            },
        }
    }
}

/// What a reader has once `done` labels are read and `rest` is what the
/// remainder of the name decodes to: the labels joined, and the reader left
/// at `resume` if a pointer was followed on the way.
pub open spec fn join_name(
    done: Seq<Seq<u8>>,
    rest: Result<(Seq<Seq<u8>>, int), ParseError>,
    resume: Option<int>,
) -> Result<(Seq<Seq<u8>>, int), ParseError> {
    match rest {
        Ok((labels, end)) => Ok(
            (
                done + labels,
                match resume {
                    Some(r) => r,
                    None => end,
                },
            ),
        ),
        Err(e) => Err(e),
    }
}

/// Whether a label of a written name can stand for the label `value`: it
/// has an offset, and the same octets.
pub open spec fn label_hit(written: LabelView, value: Seq<u8>) -> bool {
    written.offset is Some && written.value == value
}

/// How many labels, counted from the end, `entry` and `name` share without
/// a gap.
pub open spec fn suffix_run(entry: Seq<LabelView>, name: Seq<Seq<u8>>) -> nat
    decreases entry.len(),
{
    if entry.len() == 0 || name.len() == 0 || !label_hit(entry.last(), name.last()) {
        0
    } else {
        1 + suffix_run(entry.drop_last(), name.drop_last())
    }
}

/// The written name that shares the longest run of trailing labels with
/// `name`, as its index in `domains`, and the length of that run. Of two
/// names with runs of the same length the one written first is taken. The
/// length is 0 where no written name shares a label.
pub open spec fn best_match(domains: Seq<Seq<LabelView>>, name: Seq<Seq<u8>>) -> (int, nat)
    decreases domains.len(),
{
    if domains.len() == 0 {
        (0, 0)
    } else {
        let before = best_match(domains.drop_last(), name);
        let run = suffix_run(domains.last(), name);
        if run > before.1 {
            (domains.len() - 1, run)
        } else {
            before
        }
    }
}

/// The offset of the label at which the last `run` labels of the written
/// name `entry` begin.
pub open spec fn match_offset(entry: Seq<LabelView>, run: nat) -> usize {
    entry[entry.len() - run].offset->0
}

/// The number of octets that `labels` take when each is written behind its
/// length.
pub open spec fn literal_len(labels: Seq<Seq<u8>>) -> nat
    decreases labels.len(),
{
    if labels.len() == 0 {
        0
    } else {
        literal_len(labels.drop_last()) + 1 + labels.last().len()
    }
}

/// The octets of `labels`, each written behind its length.
pub open spec fn literal_bytes(labels: Seq<Seq<u8>>) -> Seq<u8>
    decreases labels.len(),
{
    if labels.len() == 0 {
        Seq::empty()
    } else {
        literal_bytes(labels.drop_last()) + seq![labels.last().len() as u8] + labels.last()
    }
}

/// The two octets of a pointer to `offset`.
pub open spec fn pointer_bytes(offset: usize) -> Seq<u8> {
    seq![(0xC0 + offset / 256) as u8, (offset % 256) as u8]
}

/// The entry that is kept of a name once it is written: the labels `lead`,
/// written from `at` on, each with the offset of its length octet, and
/// behind them the labels `tail` that a pointer stands for, with the offsets
/// they already had.
pub open spec fn registered(lead: Seq<Seq<u8>>, at: int, tail: Seq<LabelView>) -> Seq<LabelView> {
    Seq::new(
        lead.len(),
        |k: int| LabelView { value: lead[k], offset: Some((at + literal_len(lead.take(k))) as usize) },
    ) + tail
}

/// What writing a name gives: its octets, and the written names after it.
pub struct NameWire {
    pub bytes: Seq<u8>,
    pub domains: Seq<Seq<LabelView>>,
}

/// The octets that `name` is written as at offset `at`, when `domains` are
/// the names written before it.
///
/// The longest run of trailing labels that a written name shares with `name`
/// is replaced by a pointer to where that run begins; the labels before it
/// are written out, and a zero octet ends the name where no pointer does.
/// Where at least one label is written out, the name is kept as a new entry.
#[verifier::opaque]
pub open spec fn name_wire(domains: Seq<Seq<LabelView>>, at: int, name: Seq<Seq<u8>>) -> Result<
    NameWire,
    EncodeError,
> {
    let (idx, run) = best_match(domains, name);
    let lead = name.take(name.len() - run);
    if run > 0 && match_offset(domains[idx], run) > 0x3FFF {
        Err(EncodeError::NameTooLargeToCompress)
    } else if exists|k: int| 0 <= k < lead.len() && (#[trigger] lead[k]).len() > 63 {
        Err(EncodeError::NameTooLong)
    } else if run > 0 {
        let entry = domains[idx];
        Ok(
            NameWire {
                bytes: literal_bytes(lead) + pointer_bytes(match_offset(entry, run)),
                domains: if lead.len() > 0 {
                    domains.push(registered(lead, at, entry.skip(entry.len() - run)))
                } else {
                    domains
                },
            },
        )
    } else {
        Ok(
            NameWire {
                bytes: literal_bytes(lead) + seq![0u8],
                domains: if lead.len() > 0 {
                    domains.push(registered(lead, at, Seq::empty()))
                } else {
                    domains
                },
            },
        )
    }
}

/// The buffer after `name` is written at its cursor.
pub open spec fn push_name(s: BufferView, name: Seq<Seq<u8>>) -> Result<BufferView, EncodeError> {
    match name_wire(s.domains, s.offset, name) {
        Err(e) => Err(e),
        Ok(w) => if s.offset + w.bytes.len() > s.bytes.len() {
            Err(EncodeError::TruncatedMessage)
        } else {
            Ok(
                BufferView {
                    bytes: splice(s.bytes, s.offset, w.bytes),
                    offset: s.offset + w.bytes.len(),
                    domains: w.domains,
                },
            )
        },
    }
}

/// The buffer after the octets `data` are written at its cursor.
pub open spec fn put_bytes(s: BufferView, data: Seq<u8>) -> Result<BufferView, EncodeError> {
    if s.offset + data.len() > s.bytes.len() {
        Err(EncodeError::TruncatedMessage)
    } else {
        Ok(
            BufferView {
                bytes: splice(s.bytes, s.offset, data),
                offset: s.offset + data.len(),
                domains: s.domains,
            },
        )
    }
}

/// What a reader of a list has once the items `done` are read and `rest`
/// is what the remainder of the list decodes to.
pub open spec fn join_items<T>(done: Seq<T>, rest: Result<(Seq<T>, int), ParseError>) -> Result<
    (Seq<T>, int),
    ParseError,
> {
    match rest {
        Ok((items, end)) => Ok((done + items, end)),
        Err(e) => Err(e),
    }
}

/// A name that is read leaves the reader behind where it began, and within
/// the buffer.
pub proof fn lemma_decode_name_end(buf: Seq<u8>, pos: int, fuel: nat)
    ensures
        decode_name(buf, pos, fuel) matches Ok((_, end)) ==> pos < end <= buf.len(),
    decreases fuel, buf.len() - pos,
{
    if pos < 0 || pos >= buf.len() || buf[pos] == 0 {
    } else if buf[pos] >= 0xC0 {
    } else {
        let next = pos + 1 + buf[pos] as int;
        if next <= buf.len() {
            lemma_decode_name_end(buf, next, fuel);
        }
    }
}

/// The octets of character strings, each behind its length, from `pos` up
/// to `end`; `None` where the last of them does not end at `end`.
pub open spec fn decode_strings(buf: Seq<u8>, pos: int, end: int) -> Option<Seq<Seq<u8>>>
    decreases end - pos,
{
    if pos >= end {
        if pos == end {
            Some(Seq::empty())
        } else {
            None
        }
    } else {
        let next = pos + 1 + buf[pos] as int;
        if next > end {
            None
        } else {
            match decode_strings(buf, next, end) {
                None => None,
                Some(rest) => Some(seq![buf.subrange(pos + 1, next)] + rest),
            }
        }
    }
}

/// What a reader of character strings has once `done` are read and `rest`
/// is what the remainder decodes to.
pub open spec fn join_strings(done: Seq<Seq<u8>>, rest: Option<Seq<Seq<u8>>>) -> Option<
    Seq<Seq<u8>>,
> {
    match rest {
        Some(strings) => Some(done + strings),
        None => None,
    }
}

/// Whether `f` begins with the octets of `w`.
pub open spec fn extends(f: Seq<u8>, w: Seq<u8>) -> bool {
    w.len() <= f.len() && forall|i: int| 0 <= i < w.len() ==> f[i] == w[i]
}

/// The octets before the cursor: what has been written.
pub open spec fn written(s: BufferView) -> Seq<u8> {
    s.bytes.take(s.offset)
}

/// Whether `t` is `s` with more written behind the cursor: what was
/// written in `s` stands in `t` as it was, the cursor has moved on within
/// the buffer, if at all, and no fewer names are kept.
pub open spec fn grows(s: BufferView, t: BufferView) -> bool {
    &&& s.offset <= t.offset
    &&& t.offset <= t.bytes.len() || t.offset == s.offset
    &&& t.bytes.len() == s.bytes.len()
    &&& s.domains.len() <= t.domains.len()
    &&& extends(written(t), written(s))
}

/// A buffer that begins with what begins with `w` begins with `w`.
pub proof fn lemma_extends_trans(f: Seq<u8>, v: Seq<u8>, w: Seq<u8>)
    requires
        extends(f, v),
        extends(v, w),
    ensures
        extends(f, w),
{
    assert forall|i: int| 0 <= i < w.len() implies f[i] == w[i] by {
        assert(v[i] == w[i]);
    }
}

/// What grows and grows again has grown.
pub proof fn lemma_grows_trans(s: BufferView, m: BufferView, t: BufferView)
    requires
        grows(s, m),
        grows(m, t),
    ensures
        grows(s, t),
{
    lemma_extends_trans(written(t), written(m), written(s));
}

/// Writing octets leaves what was written before as it is.
pub proof fn lemma_put_bytes_grows(s: BufferView, data: Seq<u8>)
    requires
        0 <= s.offset,
        put_bytes(s, data) is Ok,
    ensures
        grows(s, put_bytes(s, data)->Ok_0),
        put_bytes(s, data)->Ok_0.offset == s.offset + data.len(),
        put_bytes(s, data)->Ok_0.offset <= s.bytes.len(),
        put_bytes(s, data)->Ok_0.domains == s.domains,
{
}

/// Writing a name leaves what was written before as it is.
pub proof fn lemma_push_name_grows(s: BufferView, name: Seq<Seq<u8>>)
    requires
        0 <= s.offset,
        push_name(s, name) is Ok,
    ensures
        grows(s, push_name(s, name)->Ok_0),
        push_name(s, name)->Ok_0.offset <= s.bytes.len(),
{
    reveal(name_wire);
}

/// The run that `suffix_run` counts is shared label by label, and ends
/// where the names differ or one of them ends.
pub proof fn lemma_suffix_run(entry: Seq<LabelView>, name: Seq<Seq<u8>>)
    ensures
        suffix_run(entry, name) <= entry.len(),
        suffix_run(entry, name) <= name.len(),
        forall|i: int|
            0 <= i < suffix_run(entry, name) ==> label_hit(
                #[trigger] entry[entry.len() - 1 - i],
                name[name.len() - 1 - i],
            ),
        suffix_run(entry, name) < entry.len() && suffix_run(entry, name) < name.len()
            ==> !label_hit(
            entry[entry.len() - 1 - suffix_run(entry, name)],
            name[name.len() - 1 - suffix_run(entry, name)],
        ),
    decreases entry.len(),
{
    if entry.len() == 0 || name.len() == 0 || !label_hit(entry.last(), name.last()) {
    } else {
        lemma_suffix_run(entry.drop_last(), name.drop_last());
        let k = suffix_run(entry, name);
        assert forall|i: int| 0 <= i < k implies label_hit(
            #[trigger] entry[entry.len() - 1 - i],
            name[name.len() - 1 - i],
        ) by {
            if i > 0 {
                assert(entry.drop_last()[entry.drop_last().len() - 1 - (i - 1)] == entry[entry.len()
                    - 1 - i]);
            }
        }
    }
}

/// Where `best_match` finds a run, it is the run of the name it points at.
pub proof fn lemma_best_match(domains: Seq<Seq<LabelView>>, name: Seq<Seq<u8>>)
    ensures
        best_match(domains, name).1 > 0 ==> {
            &&& 0 <= best_match(domains, name).0 < domains.len()
            &&& best_match(domains, name).1 == suffix_run(
                domains[best_match(domains, name).0],
                name,
            )
        },
        forall|d: int|
            0 <= d < domains.len() ==> suffix_run(#[trigger] domains[d], name) <= best_match(
                domains,
                name,
            ).1,
    decreases domains.len(),
{
    if domains.len() > 0 {
        lemma_best_match(domains.drop_last(), name);
        assert forall|d: int| 0 <= d < domains.len() implies suffix_run(
            #[trigger] domains[d],
            name,
        ) <= best_match(domains, name).1 by {
            if d < domains.len() - 1 {
                assert(domains.drop_last()[d] == domains[d]);
            }
        }
    }
}

/// `literal_bytes` has as many octets as `literal_len` counts.
pub proof fn lemma_literal_len(labels: Seq<Seq<u8>>)
    ensures
        literal_bytes(labels).len() == literal_len(labels),
    decreases labels.len(),
{
    if labels.len() > 0 {
        lemma_literal_len(labels.drop_last());
    }
}

/// Writing `a` and then `b` behind it is writing `a + b`.
pub proof fn lemma_splice_twice(buf: Seq<u8>, at: int, a: Seq<u8>, b: Seq<u8>)
    requires
        0 <= at,
    ensures
        splice(splice(buf, at, a), at + a.len(), b) == splice(buf, at, a + b),
{
    assert(splice(splice(buf, at, a), at + a.len(), b) =~= splice(buf, at, a + b));
}

/// The offset that a reader jumps to from `pos`: the target of the
/// pointer that stands at `pos`, or behind the labels written out from
/// `pos` on. `None` where the name ends, or the buffer, before a pointer.
pub open spec fn next_jump(buf: Seq<u8>, pos: int) -> Option<int>
    decreases buf.len() - pos,
{
    if pos < 0 || pos >= buf.len() || buf[pos] == 0 {
        None
    } else if buf[pos] >= 0xC0 {
        if pos + 1 < buf.len() {
            Some(pointer_target(buf, pos))
        } else {
            None
        }
    } else if pos + 1 + buf[pos] as int > buf.len() {
        None
    } else {
        next_jump(buf, pos + 1 + buf[pos] as int)
    }
}

/// A reader that has to jump fails without a hop left, and fails as the
/// name at the target fails.
pub proof fn lemma_decode_jumps(buf: Seq<u8>, pos: int, fuel: nat)
    requires
        next_jump(buf, pos) is Some,
    ensures
        fuel == 0 ==> decode_name(buf, pos, fuel) == Err::<(Seq<Seq<u8>>, int), ParseError>(
            ParseError::CompressionLoopExceeded,
        ),
        fuel > 0 ==> (decode_name(buf, next_jump(buf, pos)->0, (fuel - 1) as nat) matches Err(e)
            ==> decode_name(buf, pos, fuel) == Err::<(Seq<Seq<u8>>, int), ParseError>(e)),
    decreases buf.len() - pos,
{
    if buf[pos] >= 0xC0 {
    } else {
        lemma_decode_jumps(buf, pos + 1 + buf[pos] as int, fuel);
    }
}

/// A name whose pointers never come to an end is not read: the reader
/// stops with `CompressionLoopExceeded`, however many hops it may follow.
///
/// `cycle` is a set of offsets from each of which the reader jumps to
/// another offset of the set: a pointer to itself, pointers that form a
/// ring, or what leads into one.
pub proof fn lemma_pointer_cycle_fails(buf: Seq<u8>, cycle: Set<int>, pos: int, fuel: nat)
    requires
        cycle.contains(pos),
        forall|p: int|
            cycle.contains(p) ==> (#[trigger] next_jump(buf, p)) is Some && cycle.contains(
                next_jump(buf, p)->0,
            ),
    ensures
        decode_name(buf, pos, fuel) == Err::<(Seq<Seq<u8>>, int), ParseError>(
            ParseError::CompressionLoopExceeded,
        ),
    decreases fuel,
{
    lemma_decode_jumps(buf, pos, fuel);
    if fuel > 0 {
        lemma_pointer_cycle_fails(buf, cycle, next_jump(buf, pos)->0, (fuel - 1) as nat);
    }
}

/// A pointer that points to itself is not read as a name.
pub proof fn lemma_self_pointer_fails(buf: Seq<u8>, pos: int, fuel: nat)
    requires
        0 <= pos,
        pos + 1 < buf.len(),
        buf[pos] >= 0xC0,
        pointer_target(buf, pos) == pos,
    ensures
        decode_name(buf, pos, fuel) == Err::<(Seq<Seq<u8>>, int), ParseError>(
            ParseError::CompressionLoopExceeded,
        ),
{
    lemma_pointer_cycle_fails(buf, set![pos], pos, fuel);
}

} // verus!
