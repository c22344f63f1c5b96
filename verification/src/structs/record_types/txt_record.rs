//! TXT records: character strings.

use vstd::prelude::*;
use vstd::slice::slice_to_vec;
use crate::names::{
    decode_strings, grows, join_strings, lemma_literal_len, lemma_splice_twice, literal_bytes,
    literal_len, put_bytes, splice,
};
use crate::structs::dns_packet_buffer::{
    lemma_literal_prefix, BufferView, DNSPacketBuffer, BUFFER_SIZE,
};
use crate::structs::error::{EncodeError, ParseError};

verus! {

/// Text: one or more character strings.
#[derive(Debug)]
pub struct TXTRecord(pub Vec<Vec<u8>>);

impl View for TXTRecord {
    type V = Seq<Seq<u8>>;

    open spec fn view(&self) -> Seq<Seq<u8>> {
        Seq::new(self.0@.len(), |i: int| self.0@[i]@)
    }
}

/// The character strings that fill the `length` octets of payload from
/// `pos` on, each behind its length octet. The payload has at least 2
/// octets, and the last string ends where the payload ends.
pub open spec fn decode_txt(buf: Seq<u8>, pos: int, length: int) -> Result<
    Seq<Seq<u8>>,
    ParseError,
> {
    if pos + length > buf.len() || length < 2 {
        Err(ParseError::PayloadLengthMismatch)
    } else {
        match decode_strings(buf, pos, pos + length) {
            None => Err(ParseError::PayloadLengthMismatch),
            Some(strings) => Ok(strings),
        }
    }
}

/// The buffer after the character strings `v` are written at its cursor,
/// each behind its length octet. No string may have more than 255 octets.
pub open spec fn push_txt(s: BufferView, v: Seq<Seq<u8>>) -> Result<BufferView, EncodeError> {
    if exists|k: int| 0 <= k < v.len() && (#[trigger] v[k]).len() > 255 {
        Err(EncodeError::NameTooLong)
    } else {
        put_bytes(s, literal_bytes(v))
    }
}

impl Clone for TXTRecord {
    fn clone(&self) -> (r: Self)
        ensures
            r@ == self@,
    {
        let mut strings: Vec<Vec<u8>> = Vec::new();
        let mut i: usize = 0;
        while i < self.0.len()
            invariant
                i <= self.0@.len(),
                strings@.len() == i,
                forall|k: int| 0 <= k < i ==> (#[trigger] strings@[k])@ == self.0@[k]@,
            decreases self.0@.len() - i,
        {
            strings.push(slice_to_vec(self.0[i].as_slice()));
            i += 1;
        }
        let r = TXTRecord(strings);
        assert(r@ =~= self@);
        r
    }
}

impl TXTRecord {
    /// Reads character strings from a payload of `data_length` octets at
    /// the cursor. On success the cursor stands behind the payload; on
    /// failure the buffer is left as it was.
    pub fn parse(data_length: usize, buffer: &mut DNSPacketBuffer) -> (r: Result<Self, ParseError>)
        ensures
            match decode_txt(old(buffer).buffer@, old(buffer).offset as int, data_length as int) {
                Ok(v) => {
                    &&& r matches Ok(record)
                    &&& record@ == v
                    &&& final(buffer).offset == old(buffer).offset + data_length
                    &&& final(buffer).buffer == old(buffer).buffer
                    &&& final(buffer).domains == old(buffer).domains
                },
                Err(e) => r == Err::<Self, ParseError>(e) && *final(buffer) == *old(buffer),
            },
    {
        if !buffer.remaining_bytes(data_length) || data_length < 2 {
            return Err(ParseError::PayloadLengthMismatch);
        }
        let start: usize = buffer.offset;
        let end: usize = start + data_length;
        let ghost buf = buffer.buffer@;
        let mut strings: Vec<Vec<u8>> = Vec::new();
        let ghost mut done: Seq<Seq<u8>> = Seq::empty();
        proof {
            let all = decode_strings(buf, start as int, end as int);
            if all is Some {
                assert(done + all->0 =~= all->0);
            }
        }
        while buffer.offset < end
            invariant
                start <= buffer.offset <= end <= BUFFER_SIZE,
                end == start + data_length,
                data_length >= 2,
                buf == buffer.buffer@,
                buffer.buffer == old(buffer).buffer,
                buffer.domains == old(buffer).domains,
                start == old(buffer).offset,
                TXTRecord(strings)@ == done,
                decode_strings(buf, start as int, end as int) == join_strings(
                    done,
                    decode_strings(buf, buffer.offset as int, end as int),
                ),
            decreases end - buffer.offset,
        {
            let len: usize = buffer.buffer[buffer.offset] as usize;
            if len > end - buffer.offset - 1 {
                buffer.offset = start;
                return Err(ParseError::PayloadLengthMismatch);
            }
            let string: Vec<u8> = match buffer.read_character_string() {
                Ok(s) => s,
                Err(e) => {
                    buffer.offset = start;
                    return Err(ParseError::PayloadLengthMismatch);
                },
            };
            proof {
                let rest = decode_strings(buf, buffer.offset as int, end as int);
                if rest is Some {
                    assert((done + seq![string@]) + rest->0 =~= done + (seq![string@] + rest->0));
                }
                done = done + seq![string@];
            }
            strings.push(string);
            assert(TXTRecord(strings)@ =~= done);
        }
        proof {
            assert(done + Seq::<Seq<u8>>::empty() =~= done);
        }
        Ok(TXTRecord(strings))
    }

    /// Writes the character strings at the cursor, or nothing where one of
    /// them is too long or they do not fit.
    pub fn write_to_buffer(&self, buffer: &mut DNSPacketBuffer) -> (r: Result<(), EncodeError>)
        ensures
            match push_txt(old(buffer)@, self@) {
                Ok(s) => r is Ok && final(buffer)@ == s,
                Err(e) => r == Err::<(), EncodeError>(e) && *final(buffer) == *old(buffer),
            },
            grows(old(buffer)@, final(buffer)@),
    {
        let ghost v = self@;
        let count: usize = self.0.len();
        // No string too long, and how many octets in all (513 for more than 512).
        let mut total: usize = 0;
        let mut i: usize = 0;
        while i < count
            invariant
                v == self@,
                count == v.len(),
                i <= count,
                forall|k: int| 0 <= k < i ==> (#[trigger] v[k]).len() <= 255,
                total <= 513,
                total == if literal_len(v.take(i as int)) > 512 {
                    513
                } else {
                    literal_len(v.take(i as int)) as int
                },
                *buffer == *old(buffer),
            decreases count - i,
        {
            let len: usize = self.0[i].len();
            assert(v[i as int] == self.0@[i as int]@);
            if len > 255 {
                return Err(EncodeError::NameTooLong);
            }
            proof {
                assert(v.take(i + 1).drop_last() =~= v.take(i as int));
                assert(v.take(i + 1).last() == v[i as int]);
            }
            if total <= 512 {
                total = total + 1 + len;
                if total > 512 {
                    total = 513;
                }
            }
            i += 1;
        }
        proof {
            assert(v.take(count as int) =~= v);
            lemma_literal_len(v);
        }
        if buffer.offset > BUFFER_SIZE || total > BUFFER_SIZE - buffer.offset {
            return Err(EncodeError::TruncatedMessage);
        }
        let ghost start = buffer.offset as int;
        let mut i: usize = 0;
        proof {
            assert(buffer.buffer@ =~= splice(old(buffer).buffer@, start, literal_bytes(v.take(0))));
            lemma_literal_prefix(v, 0);
        }
        while i < count
            invariant
                v == self@,
                count == v.len(),
                i <= count,
                start == old(buffer).offset,
                forall|k: int| 0 <= k < count ==> (#[trigger] v[k]).len() <= 255,
                start + literal_len(v) <= BUFFER_SIZE,
                literal_len(v.take(i as int)) <= literal_len(v),
                buffer.offset == start + literal_len(v.take(i as int)),
                buffer.buffer@ == splice(old(buffer).buffer@, start, literal_bytes(v.take(i as int))),
                buffer.domains == old(buffer).domains,
            decreases count - i,
        {
            let string: &Vec<u8> = &self.0[i];
            let len: usize = string.len();
            let ghost written = literal_bytes(v.take(i as int));
            proof {
                assert(v[i as int] == string@);
                assert(v.take(i + 1).drop_last() =~= v.take(i as int));
                assert(v.take(i + 1).last() == v[i as int]);
                lemma_literal_len(v.take(i as int));
                lemma_literal_prefix(v, i + 1);
            }
            buffer.write_u8(len as u8);
            buffer.write_bytes(string.as_slice());
            proof {
                lemma_splice_twice(old(buffer).buffer@, start, written, seq![len as u8]);
                lemma_splice_twice(old(buffer).buffer@, start, written + seq![len as u8], string@);
            }
            i += 1;
        }
        proof {
            assert(v.take(count as int) =~= v);
        }
        Ok(())
    }
}

} // verus!
