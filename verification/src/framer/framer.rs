//! The [Framer] writes frames into a buffer that a writer drains from the front.
use vstd::prelude::*;

use crate::framer::bytes_io::put_buf;
use crate::framer::header::{header_bytes, Header, HEADER_SIZE};
use crate::framer::message::{payload_bytes, Message};
use crate::framer::varint::{encode_varint, varint_encoding};

verus! {

/// The framer copies to the front of the buffer as bytes are consumed.  It
/// doesn't do this copy unless it would copy at least this many bytes.
pub const MIN_ADVANCE_BY: usize = 8192;

/// The bytes of the frame of a message: the varint of the header and payload
/// length, the header and the payload.
pub open spec fn frame_bytes(m: Message) -> Seq<u8> {
    varint_encoding((m.data@.len() + 3) as u64) + header_bytes(m.identifier.namespace, m.identifier.id)
        + m.data@
}

/// The bytes of the frames of `ms`, one after another in order: what a framer
/// that starts empty holds after writing each of them.
pub open spec fn frames_bytes<'a>(ms: Seq<Message<'a>>) -> Seq<u8>
    decreases ms.len(),
{
    if ms.len() == 0 {
        Seq::empty()
    } else {
        frames_bytes(ms.drop_last()) + frame_bytes(ms.last())
    }
}

/// The frames of two runs of messages are the frames of the first run
/// followed by those of the second.
pub proof fn lemma_frames_concat<'a>(a: Seq<Message<'a>>, b: Seq<Message<'a>>)
    ensures
        frames_bytes(a + b) == frames_bytes(a) + frames_bytes(b),
    decreases b.len(),
{
    if b.len() == 0 {
        assert(a + b =~= a);
        assert(frames_bytes(a) + frames_bytes(b) =~= frames_bytes(a));
    } else {
        lemma_frames_concat(a, b.drop_last());
        assert((a + b).drop_last() =~= a + b.drop_last());
        assert((a + b).last() == b.last());
        assert(frames_bytes(a + b) =~= frames_bytes(a) + frames_bytes(b));
    }
}

/// Whether the cursor has come far enough through a buffer of `len` bytes for
/// the unread rest to be moved to the front: it has passed 95% of the buffer.
pub open spec fn past_advance_fraction(cursor: int, len: int) -> bool {
    20 * cursor >= 19 * len
}

/// A buffer of frames and a cursor up to which they have been consumed.
pub struct Framer {
    buffer: Vec<u8>,
    cursor: usize,
    min_advance_by: usize,
}

impl Framer {
    /// The buffered bytes.
    pub closed spec fn spec_buffer(&self) -> Seq<u8> {
        self.buffer@
    }

    /// How far the buffer has been consumed.
    pub closed spec fn spec_cursor(&self) -> usize {
        self.cursor
    }

    /// The least number of consumed bytes that is worth moving the rest for.
    pub closed spec fn spec_min_advance_by(&self) -> usize {
        self.min_advance_by
    }

    /// The bytes not yet consumed.
    pub open spec fn pending(&self) -> Seq<u8> {
        self.spec_buffer().subrange(self.spec_cursor() as int, self.spec_buffer().len() as int)
    }

    pub fn new() -> (f: Framer)
        ensures
            f.spec_buffer() == Seq::<u8>::empty(),
            f.spec_cursor() == 0,
            f.spec_min_advance_by() == MIN_ADVANCE_BY,
    {
        Framer { buffer: Vec::new(), cursor: 0, min_advance_by: MIN_ADVANCE_BY }
    }

    /// A framer holding `buffer`, unconsumed, that moves its unread bytes to
    /// the front once at least `min_advance_by` bytes are consumed.
    pub fn with_buffer(buffer: Vec<u8>, min_advance_by: usize) -> (f: Framer)
        ensures
            f.spec_buffer() == buffer@,
            f.spec_cursor() == 0,
            f.spec_min_advance_by() == min_advance_by,
    {
        Framer { buffer, cursor: 0, min_advance_by }
    }

    /// How far the buffer has been consumed.
    pub fn cursor(&self) -> (c: usize)
        ensures
            c == self.spec_cursor(),
    {
        self.cursor
    }

    /// The number of buffered bytes, consumed or not.
    pub fn buffer_len(&self) -> (n: usize)
        ensures
            n == self.spec_buffer().len(),
    {
        self.buffer.len()
    }

    /// Clear the internal buffer to write a new batch of frames: nothing is
    /// left to consume.
    pub fn clear(&mut self)
        ensures
            final(self).spec_buffer() == Seq::<u8>::empty(),
            final(self).spec_cursor() == 0,
            final(self).spec_min_advance_by() == old(self).spec_min_advance_by(),
    {
        self.buffer.clear();
        self.cursor = 0;
    }

    /// Append the frame of `message`.
    pub fn add_message(&mut self, message: &Message)
        requires
            message.data@.len() + HEADER_SIZE <= u64::MAX,
        ensures
            final(self).spec_buffer() == old(self).spec_buffer() + frame_bytes(*message),
            final(self).spec_cursor() == old(self).spec_cursor(),
            final(self).spec_min_advance_by() == old(self).spec_min_advance_by(),
    {
        let header = Header { namespace: message.identifier.namespace, id: message.identifier.id };
        encode_varint(message.len() + HEADER_SIZE, &mut self.buffer);
        header.encode(&mut self.buffer);
        put_buf(&mut self.buffer, payload_bytes(&message.data));
        proof {
            assert(self.buffer@ =~= old(self).buffer@ + frame_bytes(*message));
        }
    }

    /// Read the data of all frames in the framer.
    pub fn get_data(&self) -> (d: &[u8])
        ensures
            d@ == self.spec_buffer(),
    {
        self.buffer.as_slice()
    }

    /// Up to `amount` unconsumed bytes.
    pub fn read_front(&self, amount: usize) -> (d: &[u8])
        requires
            self.spec_cursor() <= self.spec_buffer().len(),
            self.spec_cursor() + amount <= usize::MAX,
        ensures
            d@ == self.spec_buffer().subrange(
                self.spec_cursor() as int,
                if self.spec_cursor() + amount <= self.spec_buffer().len() {
                    self.spec_cursor() + amount
                } else {
                    self.spec_buffer().len() as int
                },
            ),
    {
        let start = self.cursor;
        let sum = self.cursor + amount;
        let end = if sum < self.buffer.len() {
            sum
        } else {
            self.buffer.len()
        };
        vstd::slice::slice_subrange(self.buffer.as_slice(), start, end)
    }

    /// Consume `by` more bytes.  A fully consumed buffer is emptied; once the
    /// cursor is at least the minimum advance and past 95% of the buffer, the
    /// unconsumed bytes are moved to the front.
    pub fn advance_cursor(&mut self, by: usize)
        requires
            old(self).spec_cursor() + by <= old(self).spec_buffer().len(),
        ensures
            final(self).spec_min_advance_by() == old(self).spec_min_advance_by(),
            final(self).pending() == old(self).pending().subrange(
                by as int,
                old(self).pending().len() as int,
            ),
            ({
                let c = old(self).spec_cursor() + by;
                let len = old(self).spec_buffer().len();
                if c == len {
                    final(self).spec_buffer() == Seq::<u8>::empty() && final(self).spec_cursor() == 0
                } else if c < old(self).spec_min_advance_by() || !past_advance_fraction(c, len as int) {
                    final(self).spec_buffer() == old(self).spec_buffer() && final(self).spec_cursor()
                        == c
                } else {
                    final(self).spec_buffer() == old(self).spec_buffer().subrange(c, len as int)
                        && final(self).spec_cursor() == 0
                }
            }),
    {
        let len = self.buffer.len();
        self.cursor = self.cursor + by;
        if self.cursor == len {
            self.cursor = 0;
            self.buffer.clear();
            return;
        }
        if self.cursor < self.min_advance_by {
            return;
        }
        // Advance once the reader has passed 95% of the buffer: the buffer
        // can't grow forever behind a reader that keeps up.
        if (self.cursor as u128) * 20 < (len as u128) * 19 {
            return;
        }
        let remaining = len - self.cursor;
        let ghost old_buf = self.buffer@;
        let c = self.cursor;
        let mut j: usize = 0;
        while j < remaining
            invariant
                remaining == len - c,
                c <= len,
                self.min_advance_by == old(self).min_advance_by,
                self.cursor == c,
                len == old_buf.len(),
                self.buffer@.len() == len,
                0 <= j <= remaining,
                forall|q: int| 0 <= q < j ==> self.buffer@[q] == old_buf[c + q],
                forall|q: int| j <= q < len ==> #[trigger] self.buffer@[q] == old_buf[q],
            decreases remaining - j,
        {
            let b = self.buffer[c + j];
            self.buffer.set(j, b);
            j = j + 1;
        }
        self.buffer.truncate(remaining);
        self.cursor = 0;
        proof {
            assert(self.buffer@ =~= old_buf.subrange(c as int, len as int));
        }
    }

    /// The number of unconsumed bytes.
    pub fn pending_bytes(&self) -> (n: usize)
        requires
            self.spec_cursor() <= self.spec_buffer().len(),
        ensures
            n == self.spec_buffer().len() - self.spec_cursor(),
    {
        self.buffer.len() - self.cursor
    }

    /// Steal this framer's data into a new framer, then reset this framer to
    /// be empty.
    pub fn steal(&mut self) -> (f: Framer)
        ensures
            f.spec_buffer() == old(self).spec_buffer(),
            f.spec_cursor() == old(self).spec_cursor(),
            f.spec_min_advance_by() == old(self).spec_min_advance_by(),
            final(self).spec_buffer() == Seq::<u8>::empty(),
            final(self).spec_cursor() == 0,
            final(self).spec_min_advance_by() == MIN_ADVANCE_BY,
    {
        let mut buffer = Vec::new();
        std::mem::swap(&mut self.buffer, &mut buffer);
        let ret = Framer { buffer, cursor: self.cursor, min_advance_by: self.min_advance_by };
        *self = Framer::new();
        ret
    }
}

impl Default for Framer {
    fn default() -> (f: Framer)
        ensures
            f.spec_buffer() == Seq::<u8>::empty(),
            f.spec_cursor() == 0,
            f.spec_min_advance_by() == MIN_ADVANCE_BY,
    {
        Framer::new()
    }
}

} // verus!
