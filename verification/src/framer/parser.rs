//! The [Parser] splits a byte stream back into frames.
//!
//! Feed it bytes with [Parser::feed], then call [Parser::read_message] and
//! [Parser::roll_forward] in turn until `read_message` asks for more data.
use std::borrow::Cow;
use vstd::prelude::*;
use vstd::arithmetic::power2::{lemma2_to64, lemma2_to64_rest};

use crate::framer::bytes_io::put_buf;
use crate::framer::header::{Header, HeaderDecodingError, HEADER_SIZE};
use crate::framer::message::{Message, MessageIdentifier};
use crate::framer::framer::{frame_bytes, frames_bytes, lemma_frames_concat};
use crate::framer::header::header_bytes;
use crate::framer::varint::{
    decode_varint_counted, lemma_encoding_prefix_value, lemma_group_value_take, law_varint_prefix,
    law_varint_roundtrip, varint_decode, varint_encoding,
    VarintError,
};

verus! {

/// A parser of frames.
pub struct Parser {
    length_limit: Option<u64>,
    cap_limit: usize,
    buffer: Vec<u8>,
}

/// What reading a message gives when it succeeds.
pub enum ParserOutcome<'a> {
    Message(Message<'a>),
    /// More data is required.  Holds a lower bound on how much.
    MoreDataRequired(u64),
}

/// Why the stream could not be parsed.
#[derive(Debug, Copy, Clone, PartialEq, Eq)]
pub enum ParserError {
    MessageTooLong,
    /// A message claims to contain less data than the header size.
    MessageTooShort,
    HeaderDecodingError(HeaderDecodingError),
    VarintError(VarintError),
}

/// What reading a message from a buffer leads to: a frame with its namespace,
/// id and the payload's start and end in the buffer, a need for more bytes,
/// or an error.
#[derive(Debug, Copy, Clone, PartialEq, Eq)]
pub enum ReadOutcome {
    Frame(u8, u16, usize, usize),
    More(u64),
    Fail(ParserError),
}

/// Reading a message from the front of `buf` with the length limit `limit`.
pub open spec fn read_spec(buf: Seq<u8>, limit: Option<u64>) -> ReadOutcome {
    if buf.len() == 0 {
        ReadOutcome::More(0)
    } else {
        let n = varint_decode(buf).1;
        match varint_decode(buf).0 {
            Err(VarintError::Incomplete(val)) => {
                if limit matches Some(l) && val > l {
                    ReadOutcome::Fail(ParserError::MessageTooLong)
                } else {
                    ReadOutcome::More(0)
                }
            },
            Err(e) => ReadOutcome::Fail(ParserError::VarintError(e)),
            Ok(length) => {
                if length < 3 {
                    ReadOutcome::Fail(ParserError::MessageTooShort)
                } else if limit matches Some(l) && length > l {
                    ReadOutcome::Fail(ParserError::MessageTooLong)
                } else if buf.len() - n < length {
                    ReadOutcome::More((length - (buf.len() - n)) as u64)
                } else {
                    ReadOutcome::Frame(
                        buf[n as int],
                        (buf[n + 1int] * 256 + buf[n + 2int]) as u16,
                        (n + 3) as usize,
                        (n + length) as usize,
                    )
                }
            },
        }
    }
}

/// What feeding leaves to report about a buffer: with a length limit, a
/// length (complete or partial so far) above the limit, or a varint error.
pub open spec fn feed_spec(buf: Seq<u8>, limit: Option<u64>) -> Result<(), ParserError> {
    match limit {
        Some(l) => if buf.len() == 0 {
            Ok(())
        } else {
            match varint_decode(buf).0 {
                Ok(i) => if i > l {
                    Err(ParserError::MessageTooLong)
                } else {
                    Ok(())
                },
                Err(VarintError::Incomplete(i)) => if i > l {
                    Err(ParserError::MessageTooLong)
                } else {
                    Ok(())
                },
                Err(e) => Err(ParserError::VarintError(e)),
            }
        },
        None => Ok(()),
    }
}

/// `Vec::shrink_to`: release capacity above `min`; the contents stay.
#[verifier::external_body]
fn shrink_vec_to(v: &mut Vec<u8>, min: usize)
    ensures
        final(v)@ == old(v)@,
{
    v.shrink_to(min);
}

impl Parser {
    /// The buffered bytes.
    pub closed spec fn spec_buffer(&self) -> Seq<u8> {
        self.buffer@
    }

    /// The limit on message lengths.
    pub closed spec fn spec_length_limit(&self) -> Option<u64> {
        self.length_limit
    }

    /// The capacity the buffer shrinks back to.
    pub closed spec fn spec_cap_limit(&self) -> usize {
        self.cap_limit
    }

    /// A parser with an optional limit on message lengths and a limit on the
    /// buffer's capacity when empty.
    pub fn new(length_limit: Option<u64>, cap_limit: usize) -> (p: Parser)
        ensures
            p.spec_buffer() == Seq::<u8>::empty(),
            p.spec_length_limit() == length_limit,
            p.spec_cap_limit() == cap_limit,
    {
        Parser { length_limit, cap_limit, buffer: Vec::with_capacity(cap_limit) }
    }

    /// Feed the parser with some bytes.  With a length limit, reports a
    /// message whose length (or partial length) exceeds it; the bytes are kept
    /// either way.
    pub fn feed(&mut self, bytes: &[u8]) -> (r: Result<(), ParserError>)
        ensures
            final(self).spec_buffer() == old(self).spec_buffer() + bytes@,
            final(self).spec_length_limit() == old(self).spec_length_limit(),
            final(self).spec_cap_limit() == old(self).spec_cap_limit(),
            r == feed_spec(final(self).spec_buffer(), old(self).spec_length_limit()),
    {
        put_buf(&mut self.buffer, bytes);
        if let Some(l) = self.length_limit {
            if self.buffer.len() > 0 {
                let (res, _) = decode_varint_counted(self.buffer.as_slice());
                let length_so_far = match res {
                    Ok(i) => i,
                    Err(VarintError::Incomplete(i)) => i,
                    Err(e) => return Err(ParserError::VarintError(e)),
                };
                if length_so_far > l {
                    return Err(ParserError::MessageTooLong);
                }
            }
        }
        Ok(())
    }

    /// Try to read a message from the front of the buffer.
    pub fn read_message(&mut self) -> (r: Result<ParserOutcome<'_>, ParserError>)
        ensures
            *final(self) == *old(self),
            match read_spec(old(self).spec_buffer(), old(self).spec_length_limit()) {
                ReadOutcome::Frame(namespace, id, start, end) => r matches Ok(ParserOutcome::Message(m))
                    && m.identifier == (MessageIdentifier { namespace, id }) && m.data@ == old(
                    self,
                ).spec_buffer().subrange(start as int, end as int),
                ReadOutcome::More(x) => r matches Ok(ParserOutcome::MoreDataRequired(y)) && x == y,
                ReadOutcome::Fail(e) => r == Err::<ParserOutcome, ParserError>(e),
            },
    {
        if self.buffer.len() == 0 {
            return Ok(ParserOutcome::MoreDataRequired(0));
        }
        let all: &[u8] = self.buffer.as_slice();
        let (varint_res, n) = decode_varint_counted(all);
        if let Err(VarintError::Incomplete(val)) = varint_res {
            // A partial length already above the limit can be refused now.
            if let Some(l) = self.length_limit {
                if val > l {
                    return Err(ParserError::MessageTooLong);
                }
            }
            return Ok(ParserOutcome::MoreDataRequired(0));
        }
        let length = match varint_res {
            Ok(length) => length,
            Err(e) => return Err(ParserError::VarintError(e)),
        };
        if length < HEADER_SIZE {
            return Err(ParserError::MessageTooShort);
        }
        if let Some(l) = self.length_limit {
            if length > l {
                return Err(ParserError::MessageTooLong);
            }
        }
        let mut buf = vstd::slice::slice_subrange(all, n, all.len());
        if (buf.len() as u64) < length {
            return Ok(ParserOutcome::MoreDataRequired(length - buf.len() as u64));
        }
        let ghost b0 = buf@;
        let header = match Header::decode(&mut buf) {
            Ok(h) => h,
            Err(e) => return Err(ParserError::HeaderDecodingError(e)),
        };
        let data = vstd::slice::slice_subrange(buf, 0, (length - HEADER_SIZE) as usize);
        proof {
            assert(data@ =~= all@.subrange(n + 3, n + length));
        }
        let message = Message {
            identifier: MessageIdentifier { namespace: header.namespace, id: header.id },
            data: Cow::Borrowed(data),
        };
        Ok(ParserOutcome::Message(message))
    }

    /// Roll forward past the first message in the buffer.  Should only be
    /// called after `read_message` returned a message.
    pub fn roll_forward(&mut self) -> (r: Result<(), ParserError>)
        requires
            varint_decode(old(self).spec_buffer()).0 matches Ok(len) ==> varint_decode(
                old(self).spec_buffer(),
            ).1 + len <= old(self).spec_buffer().len(),
        ensures
            final(self).spec_length_limit() == old(self).spec_length_limit(),
            final(self).spec_cap_limit() == old(self).spec_cap_limit(),
            match varint_decode(old(self).spec_buffer()).0 {
                Ok(len) => r is Ok && final(self).spec_buffer() == old(self).spec_buffer().subrange(
                    varint_decode(old(self).spec_buffer()).1 + len,
                    old(self).spec_buffer().len() as int,
                ),
                Err(e) => r == Err::<(), ParserError>(ParserError::VarintError(e))
                    && final(self).spec_buffer() == old(self).spec_buffer(),
            },
    {
        let (res, var_len) = decode_varint_counted(self.buffer.as_slice());
        let len = match res {
            Ok(len) => len,
            Err(e) => return Err(ParserError::VarintError(e)),
        };
        let buf_len = self.buffer.len();
        let total_len = len as usize + var_len;
        let ghost old_buf = self.buffer@;
        let keep = buf_len - total_len;
        let mut j: usize = 0;
        while j < keep
            invariant
                keep == buf_len - total_len,
                total_len <= buf_len,
                buf_len == old_buf.len(),
                self.buffer@.len() == buf_len,
                0 <= j <= keep,
                forall|q: int| 0 <= q < j ==> self.buffer@[q] == old_buf[total_len + q],
                forall|q: int| j <= q < buf_len ==> #[trigger] self.buffer@[q] == old_buf[q],
                self.length_limit == old(self).length_limit,
                self.cap_limit == old(self).cap_limit,
            decreases keep - j,
        {
            let b = self.buffer[total_len + j];
            self.buffer.set(j, b);
            j = j + 1;
        }
        self.buffer.truncate(keep);
        shrink_vec_to(&mut self.buffer, self.cap_limit);
        proof {
            assert(self.buffer@ =~= old_buf.subrange(total_len as int, buf_len as int));
        }
        Ok(())
    }

    /// The number of bytes in this parser.
    pub fn contained_bytes(&self) -> (n: usize)
        ensures
            n == self.spec_buffer().len(),
    {
        self.buffer.len()
    }
}

/// What a framer writes for a message, a parser reads back: the frame of `m`,
/// followed by anything, reads as a frame with `m`'s namespace, id and
/// payload, provided the length fits the limit.
pub proof fn law_frame_read_back(m: Message, rest: Seq<u8>, limit: Option<u64>)
    requires
        m.data@.len() + 3 <= u64::MAX,
        (frame_bytes(m) + rest).len() <= usize::MAX,
        limit matches Some(l) ==> m.data@.len() + 3 <= l,
    ensures
        ({
            let buf = frame_bytes(m) + rest;
            let k = varint_encoding((m.data@.len() + 3) as u64).len();
            &&& read_spec(buf, limit) == ReadOutcome::Frame(
                m.identifier.namespace,
                m.identifier.id,
                (k + 3) as usize,
                (k + 3 + m.data@.len()) as usize,
            )
            &&& buf.subrange(k + 3int, k + 3int + m.data@.len()) == m.data@
        }),
{
    let d = m.data@.len();
    let enc = varint_encoding((d + 3) as u64);
    let hdr = header_bytes(m.identifier.namespace, m.identifier.id);
    let buf = frame_bytes(m) + rest;
    let after = hdr + m.data@ + rest;
    assert(buf =~= enc + after);
    law_varint_roundtrip((d + 3) as u64, after);
    let k = enc.len();
    assert(buf[k as int] == m.identifier.namespace);
    assert(buf[k + 1int] == (m.identifier.id / 256) as u8);
    assert(buf[k + 2int] == (m.identifier.id % 256) as u8);
    assert(buf.subrange(k + 3int, k + 3int + d) =~= m.data@);
}

/// After the frame of `m` is read, rolling forward leaves exactly what
/// followed it.
pub proof fn law_frame_roll_forward(m: Message, rest: Seq<u8>)
    requires
        m.data@.len() + 3 <= u64::MAX,
    ensures
        ({
            let buf = frame_bytes(m) + rest;
            &&& varint_decode(buf).0 == Ok::<u64, VarintError>((m.data@.len() + 3) as u64)
            &&& varint_decode(buf).1 + m.data@.len() + 3 == frame_bytes(m).len()
            &&& buf.subrange(frame_bytes(m).len() as int, buf.len() as int) == rest
        }),
{
    let d = m.data@.len();
    let enc = varint_encoding((d + 3) as u64);
    let hdr = header_bytes(m.identifier.namespace, m.identifier.id);
    let buf = frame_bytes(m) + rest;
    let after = hdr + m.data@ + rest;
    assert(buf =~= enc + after);
    law_varint_roundtrip((d + 3) as u64, after);
    assert(buf.subrange(frame_bytes(m).len() as int, buf.len() as int) =~= rest);
}

/// A strict prefix of a frame reads as a need for more data, when the frame's
/// length fits the limit.
pub proof fn law_frame_prefix_needs_more(m: Message, j: nat, limit: Option<u64>)
    requires
        m.data@.len() + 3 <= u64::MAX,
        j < frame_bytes(m).len(),
        limit matches Some(l) ==> m.data@.len() + 3 <= l,
    ensures
        read_spec(frame_bytes(m).take(j as int), limit) is More,
{
    let d = m.data@.len();
    let v = (d + 3) as u64;
    let enc = varint_encoding(v);
    let f = frame_bytes(m);
    let p = f.take(j as int);
    if j > 0 {
        if j < enc.len() {
            assert(p =~= enc.take(j as int));
            law_varint_prefix(v, j);
            lemma_group_value_take(enc, j);
            lemma_encoding_prefix_value(v, j);
            lemma2_to64();
            lemma2_to64_rest();
        } else {
            let after = f.subrange(enc.len() as int, j as int);
            assert(p =~= enc + after);
            law_varint_roundtrip(v, after);
        }
    }
}

/// Messages written one after another are read back one after another. Once
/// the frames of the first `i` messages have been rolled past, what is left
/// begins with the frame of message `i`: it reads as that message's
/// namespace, id and payload, the next message's frame begins right after it,
/// and every strict part of it that has arrived so far reads as a need for
/// more data.
pub proof fn law_stream_read_back<'a>(ms: Seq<Message<'a>>, i: int, limit: Option<u64>)
    requires
        0 <= i < ms.len(),
        forall|j: int| 0 <= j < ms.len() ==> #[trigger] ms[j].data@.len() + 3 <= u64::MAX,
        forall|j: int|
            0 <= j < ms.len() ==> (limit matches Some(l) ==> #[trigger] ms[j].data@.len() + 3 <= l),
        frames_bytes(ms).len() <= usize::MAX,
    ensures
        ({
            let all = frames_bytes(ms);
            let start = frames_bytes(ms.take(i)).len() as int;
            let end = start + frame_bytes(ms[i]).len();
            let rest = all.subrange(start, all.len() as int);
            let d = ms[i].data@.len();
            let k = varint_encoding((d + 3) as u64).len();
            &&& end <= all.len()
            &&& frames_bytes(ms.take(i + 1)).len() == end
            &&& read_spec(rest, limit) == ReadOutcome::Frame(
                ms[i].identifier.namespace,
                ms[i].identifier.id,
                (k + 3) as usize,
                (k + 3 + d) as usize,
            )
            &&& rest.subrange(k + 3int, k + 3int + d) == ms[i].data@
            &&& forall|c: int| start <= c < end ==> (#[trigger] read_spec(all.subrange(start, c), limit)) is More
        }),
{
    let m = ms[i];
    let pre = ms.take(i);
    let post = ms.skip(i + 1);
    assert(ms =~= pre + (seq![m] + post));
    assert(ms.take(i + 1) =~= pre + seq![m]);
    lemma_frames_concat(pre, seq![m] + post);
    lemma_frames_concat(seq![m], post);
    lemma_frames_concat(pre, seq![m]);
    assert(seq![m].drop_last() =~= Seq::<Message<'a>>::empty());
    assert(seq![m].last() == m);
    assert(frames_bytes(Seq::<Message<'a>>::empty()) =~= Seq::<u8>::empty());
    assert(frames_bytes(seq![m]) =~= frame_bytes(m));
    let all = frames_bytes(ms);
    let start = frames_bytes(pre).len() as int;
    let end = start + frame_bytes(m).len();
    let rest = all.subrange(start, all.len() as int);
    assert(all == frames_bytes(pre) + (frame_bytes(m) + frames_bytes(post)));
    assert(rest =~= frame_bytes(m) + frames_bytes(post));
    assert(m.data@.len() + 3 <= u64::MAX);
    assert(limit matches Some(l) ==> m.data@.len() + 3 <= l);
    law_frame_read_back(m, frames_bytes(post), limit);
    assert forall|c: int| start <= c < end implies (#[trigger] read_spec(all.subrange(start, c), limit)) is More by {
        assert(all.subrange(start, c) =~= frame_bytes(m).take(c - start));
        law_frame_prefix_needs_more(m, (c - start) as nat, limit);
    }
}

/// What reading messages from the front of `buf`, rolling forward past each,
/// reads until no whole frame is left: each message's namespace, id and
/// payload, in order, and the bytes left over.
#[verifier::opaque]
pub open spec fn drain(buf: Seq<u8>, limit: Option<u64>) -> (Seq<(u8, u16, Seq<u8>)>, Seq<u8>)
    decreases buf.len(),
{
    match read_spec(buf, limit) {
        ReadOutcome::Frame(namespace, id, start, end) => if 0 < end <= buf.len() && start <= end {
            let (rest_msgs, left) = drain(buf.subrange(end as int, buf.len() as int), limit);
            (seq![(namespace, id, buf.subrange(start as int, end as int))] + rest_msgs, left)
        } else {
            (Seq::empty(), buf)
        },
        _ => (Seq::empty(), buf),
    }
}

/// A message's namespace, id and payload.
pub open spec fn message_parts<'a>(m: Message<'a>) -> (u8, u16, Seq<u8>) {
    (m.identifier.namespace, m.identifier.id, m.data@)
}

/// Where the frame of message `i` begins among the frames of `ms`.
pub open spec fn frame_start<'a>(ms: Seq<Message<'a>>, i: int) -> int {
    frames_bytes(ms.take(i)).len() as int
}

/// The frame of message `i` lies right after those of the messages before it.
proof fn lemma_frame_at<'a>(ms: Seq<Message<'a>>, i: int)
    requires
        0 <= i < ms.len(),
    ensures
        frame_start(ms, i + 1) == frame_start(ms, i) + frame_bytes(ms[i]).len(),
        frame_start(ms, i + 1) <= frames_bytes(ms).len(),
        frames_bytes(ms).subrange(frame_start(ms, i), frame_start(ms, i + 1)) == frame_bytes(ms[i]),
{
    let m = ms[i];
    let pre = ms.take(i);
    let post = ms.skip(i + 1);
    assert(ms =~= pre + (seq![m] + post));
    assert(ms.take(i + 1) =~= pre + seq![m]);
    lemma_frames_concat(pre, seq![m] + post);
    lemma_frames_concat(seq![m], post);
    lemma_frames_concat(pre, seq![m]);
    assert(seq![m].drop_last() =~= Seq::<Message<'a>>::empty());
    assert(seq![m].last() == m);
    assert(frames_bytes(Seq::<Message<'a>>::empty()) =~= Seq::<u8>::empty());
    assert(frames_bytes(seq![m]) =~= frame_bytes(m));
    let all = frames_bytes(ms);
    assert(all == frames_bytes(pre) + (frame_bytes(m) + frames_bytes(post)));
    assert(all.subrange(frame_start(ms, i), frame_start(ms, i + 1)) =~= frame_bytes(m));
}

/// Frames begin in order: message `i`'s frame begins no later than message
/// `n`'s, for `i <= n`.
proof fn lemma_frame_start_mono<'a>(ms: Seq<Message<'a>>, i: int, n: int)
    requires
        0 <= i <= n <= ms.len(),
    ensures
        frame_start(ms, i) <= frame_start(ms, n) <= frames_bytes(ms).len(),
    decreases n - i,
{
    if i < n {
        lemma_frame_at(ms, i);
        lemma_frame_start_mono(ms, i + 1, n);
    } else {
        if n == ms.len() {
            assert(ms.take(n) =~= ms);
        } else {
            lemma_frame_at(ms, n);
        }
    }
}

/// Reading from a buffer that begins with the frame of `m` reads `m`, then
/// goes on with what follows the frame.
proof fn lemma_drain_frame<'a>(m: Message<'a>, rest: Seq<u8>, limit: Option<u64>)
    requires
        m.data@.len() + 3 <= u64::MAX,
        (frame_bytes(m) + rest).len() <= usize::MAX,
        limit matches Some(l) ==> m.data@.len() + 3 <= l,
    ensures
        drain(frame_bytes(m) + rest, limit) == (seq![message_parts(m)] + drain(rest, limit).0, drain(
            rest,
            limit,
        ).1),
{
    let buf = frame_bytes(m) + rest;
    reveal(drain);
    law_frame_read_back(m, rest, limit);
    let d = m.data@.len();
    let k = varint_encoding((d + 3) as u64).len();
    assert(frame_bytes(m).len() == k + 3 + d);
    assert(buf.subrange((k + 3 + d) as int, buf.len() as int) =~= rest);
}

/// What has arrived of the frame of message `n` (nothing, when all messages
/// have been read) reads as a need for more data.
proof fn lemma_partial_frame<'a>(ms: Seq<Message<'a>>, n: int, c: int, limit: Option<u64>)
    requires
        forall|j: int| 0 <= j < ms.len() ==> #[trigger] ms[j].data@.len() + 3 <= u64::MAX,
        forall|j: int|
            0 <= j < ms.len() ==> (limit matches Some(l) ==> #[trigger] ms[j].data@.len() + 3 <= l),
        0 <= n <= ms.len(),
        frame_start(ms, n) <= c <= frames_bytes(ms).len(),
        n < ms.len() ==> c < frame_start(ms, n + 1),
    ensures
        read_spec(frames_bytes(ms).subrange(frame_start(ms, n), c), limit) is More,
{
    let all = frames_bytes(ms);
    let left = all.subrange(frame_start(ms, n), c);
    if n < ms.len() {
        lemma_frame_at(ms, n);
        let m = ms[n];
        assert(m.data@.len() + 3 <= u64::MAX);
        assert(limit matches Some(l) ==> m.data@.len() + 3 <= l);
        if c > frame_start(ms, n) {
            assert(left =~= frame_bytes(m).take(c - frame_start(ms, n)));
            law_frame_prefix_needs_more(m, (c - frame_start(ms, n)) as nat, limit);
        }
    } else {
        assert(ms.take(n) =~= ms);
        assert(left.len() == 0);
    }
}

/// Messages written one after another and read back as bytes arrive in
/// chunks of any size. Once the frames of the first `i` messages have been
/// read and rolled past, and the stream has arrived up to byte `c`, past the
/// start of message `n`'s frame but short of its end, reading and rolling
/// forward while whole frames are there gives messages `i` to `n - 1`,
/// exactly and with no error, and leaves what has arrived of message `n`'s
/// frame, which reads as a need for more data.  When the whole stream has
/// arrived (`n` is the number of messages), every message is read and
/// nothing is left.
pub proof fn law_stream_chunks<'a>(ms: Seq<Message<'a>>, i: int, n: int, c: int, limit: Option<u64>)
    requires
        forall|j: int| 0 <= j < ms.len() ==> #[trigger] ms[j].data@.len() + 3 <= u64::MAX,
        forall|j: int|
            0 <= j < ms.len() ==> (limit matches Some(l) ==> #[trigger] ms[j].data@.len() + 3 <= l),
        frames_bytes(ms).len() <= usize::MAX,
        0 <= i <= n <= ms.len(),
        frame_start(ms, n) <= c <= frames_bytes(ms).len(),
        n < ms.len() ==> c < frame_start(ms, n + 1),
    ensures
        drain(frames_bytes(ms).subrange(frame_start(ms, i), c), limit) == (
            ms.subrange(i, n).map_values(|m: Message<'a>| message_parts(m)),
            frames_bytes(ms).subrange(frame_start(ms, n), c),
        ),
        read_spec(frames_bytes(ms).subrange(frame_start(ms, n), c), limit) is More,
    decreases n - i,
{
    let all = frames_bytes(ms);
    lemma_frame_start_mono(ms, i, n);
    lemma_partial_frame(ms, n, c, limit);
    if i == n {
        assert(drain(all.subrange(frame_start(ms, n), c), limit) == (Seq::<(u8, u16, Seq<u8>)>::empty(), all.subrange(frame_start(ms, n), c))) by {
            reveal(drain);
        }
        assert(ms.subrange(i, n).map_values(|m: Message<'a>| message_parts(m)) =~= Seq::<
            (u8, u16, Seq<u8>),
        >::empty());
    } else {
        lemma_frame_at(ms, i);
        lemma_frame_start_mono(ms, i + 1, n);
        let m = ms[i];
        let buf = all.subrange(frame_start(ms, i), c);
        let rest = all.subrange(frame_start(ms, i + 1), c);
        assert(buf =~= frame_bytes(m) + rest);
        assert(m.data@.len() + 3 <= u64::MAX);
        assert(limit matches Some(l) ==> m.data@.len() + 3 <= l);
        lemma_drain_frame(m, rest, limit);
        law_stream_chunks(ms, i + 1, n, c, limit);
        assert(ms.subrange(i, n).map_values(|m: Message<'a>| message_parts(m)) =~= seq![message_parts(m)]
            + ms.subrange(i + 1, n).map_values(|m: Message<'a>| message_parts(m)));
    }
}

/// With a length limit, a frame whose complete length prefix is at least the
/// header size and above the limit is refused as too long, whatever follows
/// the prefix.
pub proof fn law_read_refuses_long_length(buf: Seq<u8>, l: u64)
    requires
        varint_decode(buf).0 matches Ok(length) && length >= 3 && length > l,
    ensures
        read_spec(buf, Some(l)) == ReadOutcome::Fail(ParserError::MessageTooLong),
{
}

/// The same, for a buffer that starts with the encoding of a length `v`
/// (at least the header size and above the limit) followed by anything.
pub proof fn law_read_refuses_encoded_long_length(v: u64, rest: Seq<u8>, l: u64)
    requires
        v >= 3,
        v > l,
    ensures
        read_spec(varint_encoding(v) + rest, Some(l)) == ReadOutcome::Fail(ParserError::MessageTooLong),
{
    law_varint_roundtrip(v, rest);
}

/// With a length limit, a length prefix that has not fully arrived but whose
/// value so far is above the limit is refused as too long when reading.
pub proof fn law_read_refuses_long_partial_length(buf: Seq<u8>, l: u64)
    requires
        varint_decode(buf).0 matches Err(VarintError::Incomplete(i)) && i > l,
    ensures
        read_spec(buf, Some(l)) == ReadOutcome::Fail(ParserError::MessageTooLong),
{
    if buf.len() == 0 {
        assert(varint_decode(buf).0 == Err::<u64, VarintError>(VarintError::NoData));
    }
}

/// Feeding reports nothing when there is no limit, when the buffer is empty,
/// or when its length prefix (complete, or incomplete with its value so far)
/// is at most the limit.
pub proof fn law_feed_accepts_within_limit(buf: Seq<u8>, limit: Option<u64>)
    requires
        limit matches Some(l) ==> (buf.len() == 0 || (varint_decode(buf).0 matches Ok(length)
            && length <= l) || (varint_decode(buf).0 matches Err(VarintError::Incomplete(i)) && i
            <= l)),
    ensures
        feed_spec(buf, limit) == Ok::<(), ParserError>(()),
{
}

/// With a length limit, feeding that leaves a buffer whose length prefix,
/// complete or not, is above the limit reports the message as too long.
pub proof fn law_feed_refuses_long_length(buf: Seq<u8>, l: u64)
    requires
        buf.len() > 0,
        (varint_decode(buf).0 matches Ok(length) && length > l) || (varint_decode(
            buf,
        ).0 matches Err(VarintError::Incomplete(i)) && i > l),
    ensures
        feed_spec(buf, Some(l)) == Err::<(), ParserError>(ParserError::MessageTooLong),
{
}

} // verus!
