//! Line framing of an IRC byte stream: incoming bytes are buffered and cut into
//! messages at CR or LF; outgoing messages get a CR LF terminator.
//!
//! The socket itself is driven by the caller: [`IrcStream::read`] says whether a message
//! is ready or more bytes are needed, and [`IrcStream::receive`] takes the bytes read.

use vstd::prelude::*;
use vstd::utf8::{valid_utf8, decode_utf8, encode_utf8, encode_scalar, has_width_1_encoding,
    char_is_scalar, encode_utf8_valid_utf8, encode_utf8_decode_utf8};
use crate::text::{utf8_lossy, from_utf8_lossy};

verus! {

broadcast use vstd::string::group_string_axioms;

/// The size of one read from the socket; a buffer of twice this size is refused.
pub const MAX_MESSAGE_SIZE: usize = 8703;

/// A line terminator byte: CR or LF.
pub open spec fn is_delim(b: u8) -> bool {
    b == 13 || b == 10
}

/// The first index `k >= i` holding CR or LF, or `s.len()`.
pub open spec fn first_delim(s: Seq<u8>, i: int) -> int
    decreases s.len() - i,
{
    if 0 <= i < s.len() && !is_delim(s[i]) {
        first_delim(s, i + 1)
    } else {
        i
    }
}

proof fn lemma_first_delim(s: Seq<u8>, i: int)
    requires
        0 <= i <= s.len(),
    ensures
        i <= first_delim(s, i) <= s.len(),
        first_delim(s, i) < s.len() ==> is_delim(s[first_delim(s, i)]),
        forall|k: int| i <= k < first_delim(s, i) ==> !is_delim(s[k]),
    decreases s.len() - i,
{
    if i < s.len() && !is_delim(s[i]) {
        lemma_first_delim(s, i + 1);
    }
}

/// Why reading from the stream failed.
#[derive(PartialEq, Eq, Structural, Clone, Copy, Debug)]
pub enum StreamError {
    /// The stream was closed, or the peer sent nothing more.
    ConnectionClosed,
    /// The buffered bytes reached twice [`MAX_MESSAGE_SIZE`] without a complete line.
    MessageTooLarge,
}

/// What reading asks the caller to do next.
#[derive(Debug)]
pub enum ReadStep {
    /// A complete, non-empty message.
    Message(String),
    /// No message is ready: read more bytes from the socket and hand them to
    /// [`IrcStream::receive`]. This is also the answer when the line just cut off was empty,
    /// even if further complete lines are still buffered: the stream then waits for the
    /// socket before it looks at the buffer again.
    NeedBytes,
    /// The stream has been closed.
    Closed,
}

/// The model of a [`ReadStep`].
pub enum ReadStepView {
    Message(Seq<char>),
    NeedBytes,
    Closed,
}

impl View for ReadStep {
    type V = ReadStepView;

    open spec fn view(&self) -> ReadStepView {
        match self {
            ReadStep::Message(m) => ReadStepView::Message(m@),
            ReadStep::NeedBytes => ReadStepView::NeedBytes,
            ReadStep::Closed => ReadStepView::Closed,
        }
    }
}

/// The framing state of one connection.
#[derive(Debug)]
pub struct IrcStream {
    buffer: Vec<u8>,
    cursor: u32,
    is_closed: bool,
}

/// The model of an [`IrcStream`]: the bytes received but not yet read, and whether
/// the stream was closed.
pub struct IrcStreamView {
    pub buffer: Seq<u8>,
    pub cursor: u32,
    pub is_closed: bool,
}

impl View for IrcStream {
    type V = IrcStreamView;

    closed spec fn view(&self) -> IrcStreamView {
        IrcStreamView { buffer: self.buffer@, cursor: self.cursor, is_closed: self.is_closed }
    }
}

/// The text of a received line: its decoding when the bytes are valid UTF-8, otherwise
/// what `String::from_utf8_lossy` makes of them.
pub open spec fn line_text(bytes: Seq<u8>) -> Seq<char> {
    if valid_utf8(bytes) {
        decode_utf8(bytes)
    } else {
        utf8_lossy(bytes)
    }
}

/// Reading an open stream whose buffer is `buf`: the message cut off at the first CR or LF
/// (`None` when there is no terminator or the line is empty) and the buffer left after it.
pub open spec fn read_outcome(buf: Seq<u8>) -> (Option<Seq<char>>, Seq<u8>) {
    let pos = first_delim(buf, 0);
    if pos < buf.len() {
        let m = line_text(buf.take(pos));
        (if m.len() > 0 { Some(m) } else { None }, buf.skip(pos + 1))
    } else {
        (None, buf)
    }
}

/// Receiving `data` on a buffer `buf`: the result and the buffer left.
pub open spec fn receive_outcome(buf: Seq<u8>, data: Seq<u8>) -> (Result<(), StreamError>, Seq<u8>) {
    if data.len() == 0 {
        (Err(StreamError::ConnectionClosed), buf)
    } else if buf.len() + data.len() >= 2 * MAX_MESSAGE_SIZE {
        (Err(StreamError::MessageTooLarge), Seq::empty())
    } else {
        (Ok(()), buf + data)
    }
}

/// The line that [`IrcStream::write`] sends for a message.
pub open spec fn line_spec(message: Seq<char>) -> Seq<char> {
    message + seq!['\r', '\n']
}

impl IrcStream {
    /// A stream with an empty buffer, open.
    pub fn new() -> (res: Self)
        ensures
            res@.buffer == Seq::<u8>::empty(),
            res@.cursor == 0,
            !res@.is_closed,
    {
        IrcStream { buffer: Vec::new(), cursor: 0, is_closed: false }
    }

    /// Marks the stream closed; every later read reports [`ReadStep::Closed`].
    /// (Shutting the socket down is the caller's part.)
    pub fn close(&mut self)
        ensures
            final(self)@.is_closed,
            final(self)@.buffer == old(self)@.buffer,
            final(self)@.cursor == old(self)@.cursor,
    {
        self.is_closed = true;
    }

    /// The next step of reading a message. On an open stream, the bytes up to the first
    /// CR or LF are cut off together with that terminator; a non-empty line is returned.
    /// An empty line (such as the LF left after a CR) is dropped and the step asks for
    /// more bytes, without searching the rest of the buffer, just as it does when there is
    /// no terminator yet.
    pub fn read(&mut self) -> (res: ReadStep)
        ensures
            old(self)@.is_closed ==> res@ == ReadStepView::Closed && final(self)@ == old(self)@,
            !old(self)@.is_closed ==> {
                &&& final(self)@.buffer == read_outcome(old(self)@.buffer).1
                &&& final(self)@.cursor == old(self)@.cursor
                &&& !final(self)@.is_closed
                &&& first_delim(old(self)@.buffer, 0) < old(self)@.buffer.len() ==> (res is Message
                    <==> first_delim(old(self)@.buffer, 0) > 0)
                &&& match read_outcome(old(self)@.buffer).0 {
                    Some(m) => res@ == ReadStepView::Message(m),
                    None => res@ == ReadStepView::NeedBytes,
                }
            },
            res matches ReadStep::Message(m) ==> !m@.contains('\r') && !m@.contains('\n'),
    {
        if self.is_closed {
            return ReadStep::Closed;
        }
        let ghost buf = self.buffer@;
        let mut pos: usize = 0;
        while pos < self.buffer.len() && self.buffer[pos] != 13 && self.buffer[pos] != 10
            invariant
                pos <= self.buffer@.len(),
                self.buffer@ == buf,
                first_delim(buf, pos as int) == first_delim(buf, 0),
                forall|k: int| 0 <= k < pos ==> !is_delim(buf[k]),
            decreases self.buffer@.len() - pos,
        {
            pos += 1;
        }
        if pos >= self.buffer.len() {
            return ReadStep::NeedBytes;
        }
        let line = vstd::slice::slice_subrange(self.buffer.as_slice(), 0, pos);
        proof {
            assert(line@ =~= buf.take(pos as int));
            if line@.contains(13u8) || line@.contains(10u8) {
                let k = choose|k: int| 0 <= k < line@.len() && (line@[k] == 13u8 || line@[k] == 10u8);
                assert(buf[k] == line@[k]);
            }
        }
        let message = from_utf8_lossy(line);
        let rest = self.buffer.split_off(pos + 1);
        self.buffer = rest;
        proof {
            assert(self.buffer@ =~= buf.skip(pos + 1));
        }
        if !message.as_str().is_empty() {
            ReadStep::Message(message)
        } else {
            ReadStep::NeedBytes
        }
    }

    /// Takes the bytes of one socket read. No bytes means the peer closed the connection
    /// (the buffer is kept); a buffer that reaches twice [`MAX_MESSAGE_SIZE`] is cleared
    /// and refused.
    pub fn receive(&mut self, data: &[u8]) -> (res: Result<(), StreamError>)
        ensures
            (res, final(self)@.buffer) == receive_outcome(old(self)@.buffer, data@),
            final(self)@.is_closed == old(self)@.is_closed,
            final(self)@.cursor == old(self)@.cursor,
    {
        if data.len() == 0 {
            return Err(StreamError::ConnectionClosed);
        }
        let ghost old_buf = self.buffer@;
        let ghost closed = self.is_closed;
        let ghost cursor = self.cursor;
        let mut k: usize = 0;
        while k < data.len()
            invariant
                k <= data@.len(),
                self.is_closed == closed,
                self.cursor == cursor,
                self.buffer@ == old_buf + data@.take(k as int),
            decreases data@.len() - k,
        {
            self.buffer.push(data[k]);
            k += 1;
            assert(self.buffer@ =~= old_buf + data@.take(k as int));
        }
        assert(data@.take(k as int) =~= data@);
        if self.buffer.len() >= MAX_MESSAGE_SIZE * 2 {
            self.buffer.clear();
            return Err(StreamError::MessageTooLarge);
        }
        Ok(())
    }

    /// The line to send for `message`: the message followed by CR LF.
    pub fn write(&self, message: &str) -> (line: String)
        ensures
            line@ == line_spec(message@),
    {
        let mut line = String::from_str(message);
        line.push('\r');
        line.push('\n');
        assert(line@ =~= line_spec(message@));
        line
    }
}


proof fn lemma_encode_utf8_append(a: Seq<char>, b: Seq<char>)
    ensures
        encode_utf8(a + b) == encode_utf8(a) + encode_utf8(b),
    decreases a.len(),
{
    if a.len() == 0 {
        assert(a + b =~= b);
    } else {
        lemma_encode_utf8_append(a.drop_first(), b);
        assert((a + b).drop_first() =~= a.drop_first() + b);
        assert((a + b)[0] == a[0]);
    }
}

proof fn lemma_encode_char_no_delim(c: char)
    requires
        c != '\r',
        c != '\n',
    ensures
        forall|k: int| 0 <= k < encode_scalar(c as u32).len() ==> !is_delim(#[trigger] encode_scalar(c as u32)[k]),
{
    char_is_scalar(c);
    let v = c as u32;
    assert(v != 13 && v != 10);
    if has_width_1_encoding(v) {
        assert(((v & 0x7F) as u8) != 13 && ((v & 0x7F) as u8) != 10) by (bit_vector)
            requires
                v <= 0x7F,
                v != 13,
                v != 10,
        ;
    } else {
        assert(forall|x: u8| #![trigger (0x80u8 | x)] (0x80u8 | x) >= 0x80) by (bit_vector);
        assert(forall|x: u8| #![trigger (0xC0u8 | x)] (0xC0u8 | x) >= 0x80) by (bit_vector);
        assert(forall|x: u8| #![trigger (0xE0u8 | x)] (0xE0u8 | x) >= 0x80) by (bit_vector);
        assert(forall|x: u8| #![trigger (0xF0u8 | x)] (0xF0u8 | x) >= 0x80) by (bit_vector);
    }
}

proof fn lemma_encode_no_delim(m: Seq<char>)
    requires
        !m.contains('\r'),
        !m.contains('\n'),
    ensures
        forall|k: int| 0 <= k < encode_utf8(m).len() ==> !is_delim(#[trigger] encode_utf8(m)[k]),
    decreases m.len(),
{
    if m.len() > 0 {
        let r = m.drop_first();
        assert(!r.contains('\r')) by {
            if r.contains('\r') {
                let i = choose|i: int| 0 <= i < r.len() && r[i] == '\r';
                assert(m[i + 1] == '\r');
            }
        }
        assert(!r.contains('\n')) by {
            if r.contains('\n') {
                let i = choose|i: int| 0 <= i < r.len() && r[i] == '\n';
                assert(m[i + 1] == '\n');
            }
        }
        lemma_encode_no_delim(r);
        assert(m[0] != '\r' && m[0] != '\n') by {
            if m[0] == '\r' || m[0] == '\n' {
                assert(m.contains(m[0]));
            }
        }
        lemma_encode_char_no_delim(m[0]);
        let e0 = encode_scalar(m[0] as u32);
        let er = encode_utf8(r);
        assert forall|k: int| 0 <= k < encode_utf8(m).len() implies !is_delim(
            #[trigger] encode_utf8(m)[k],
        ) by {
            if k < e0.len() {
                assert(encode_utf8(m)[k] == e0[k]);
            } else {
                assert(encode_utf8(m)[k] == er[k - e0.len()]);
            }
        }
    }
}

proof fn lemma_first_delim_at(x: Seq<u8>, n: int, i: int)
    requires
        0 <= i <= n < x.len(),
        is_delim(x[n]),
        forall|k: int| 0 <= k < n ==> !is_delim(#[trigger] x[k]),
    ensures
        first_delim(x, i) == n,
    decreases n - i,
{
    if i < n {
        lemma_first_delim_at(x, n, i + 1);
    }
}

/// What a read gives back of a write: for a non-empty message without CR or LF whose line
/// fits the buffer, an open stream with an empty buffer that receives the bytes of the line
/// [`IrcStream::write`] makes for it accepts them and reads back exactly the message,
/// keeping only the final LF, which the next read drops while asking for more bytes.
pub proof fn lemma_write_then_read(message: Seq<char>)
    requires
        message.len() > 0,
        !message.contains('\r'),
        !message.contains('\n'),
        encode_utf8(message).len() + 2 < 2 * MAX_MESSAGE_SIZE,
    ensures
        receive_outcome(Seq::empty(), encode_utf8(line_spec(message))) == (
            Ok::<(), StreamError>(()),
            encode_utf8(line_spec(message)),
        ),
        read_outcome(encode_utf8(line_spec(message))) == (Some(message), seq![10u8]),
        read_outcome(seq![10u8]) == (None::<Seq<char>>, Seq::<u8>::empty()),
{
    let e = encode_utf8(message);
    let crlf = seq!['\r', '\n'];
    lemma_encode_utf8_append(message, crlf);
    assert(('\r' as u32) == 13 && ('\n' as u32) == 10);
    assert(((13u32 & 0x7F) as u8) == 13u8 && ((10u32 & 0x7F) as u8) == 10u8) by (bit_vector);
    assert(crlf.drop_first() =~= seq!['\n']);
    assert(seq!['\n'].drop_first() =~= Seq::<char>::empty());
    assert(seq!['\n'][0] == '\n');
    assert(encode_scalar(10u32) =~= seq![10u8]);
    assert(encode_scalar(13u32) =~= seq![13u8]);
    assert(encode_utf8(Seq::<char>::empty()) =~= Seq::<u8>::empty());
    assert(encode_utf8(seq!['\n']) =~= encode_scalar(10u32) + encode_utf8(Seq::<char>::empty()));
    assert(encode_utf8(seq!['\n']) =~= seq![10u8]);
    assert(encode_utf8(crlf) =~= seq![13u8, 10u8]);
    let x = encode_utf8(line_spec(message));
    assert(x == e + seq![13u8, 10u8]);
    assert(Seq::<u8>::empty() + x =~= x);
    lemma_encode_no_delim(message);
    assert forall|k: int| 0 <= k < e.len() implies !is_delim(#[trigger] x[k]) by {
        assert(x[k] == e[k]);
    }
    lemma_first_delim_at(x, e.len() as int, 0);
    assert(x.take(e.len() as int) =~= e);
    encode_utf8_valid_utf8(message);
    encode_utf8_decode_utf8(message);
    assert(x.skip(e.len() as int + 1) =~= seq![10u8]);
    let y = seq![10u8];
    lemma_first_delim_at(y, 0, 0);
    assert(y.take(0) =~= Seq::<u8>::empty());
    assert(valid_utf8(Seq::<u8>::empty()));
    assert(decode_utf8(Seq::<u8>::empty()) =~= Seq::<char>::empty());
    assert(y.skip(1) =~= Seq::<u8>::empty());
}


/// The buffer stays below twice [`MAX_MESSAGE_SIZE`]: starting from a buffer below that
/// size, receiving any bytes and reading leave a buffer below it too.
pub proof fn lemma_buffer_stays_bounded(buf: Seq<u8>, data: Seq<u8>)
    requires
        buf.len() < 2 * MAX_MESSAGE_SIZE,
    ensures
        receive_outcome(buf, data).1.len() < 2 * MAX_MESSAGE_SIZE,
        read_outcome(buf).1.len() < 2 * MAX_MESSAGE_SIZE,
{
    lemma_first_delim(buf, 0);
}

/// Reading loses no byte: when the buffer holds a terminator, it is the bytes of the line
/// (holding no terminator), the terminator, and the buffer left after the read.
pub proof fn lemma_read_splits_buffer(buf: Seq<u8>)
    requires
        first_delim(buf, 0) < buf.len(),
    ensures
        buf == buf.take(first_delim(buf, 0)) + seq![buf[first_delim(buf, 0)]] + read_outcome(buf).1,
        is_delim(buf[first_delim(buf, 0)]),
        forall|k: int| 0 <= k < first_delim(buf, 0) ==> !is_delim(#[trigger] buf.take(first_delim(buf, 0))[k]),
{
    lemma_first_delim(buf, 0);
    let pos = first_delim(buf, 0);
    assert(buf =~= buf.take(pos) + seq![buf[pos]] + buf.skip(pos + 1));
}


/// Receiving appends: for every buffer and non-empty data that keep it under twice
/// [`MAX_MESSAGE_SIZE`], receiving is accepted and the buffer becomes the old buffer
/// followed by the data, so nothing already buffered is lost.
pub proof fn lemma_receive_appends(buf: Seq<u8>, data: Seq<u8>)
    requires
        data.len() > 0,
        buf.len() + data.len() < 2 * MAX_MESSAGE_SIZE,
    ensures
        receive_outcome(buf, data).0 == Ok::<(), StreamError>(()),
        receive_outcome(buf, data).1 == buf + data,
        receive_outcome(buf, data).1.take(buf.len() as int) == buf,
{
    assert((buf + data).take(buf.len() as int) =~= buf);
}

/// A line already buffered is not disturbed by receiving more: when the buffer holds a
/// terminator, reading after a successful receive gives the same message as reading before,
/// and leaves the same rest followed by the new data.
pub proof fn lemma_receive_keeps_pending_line(buf: Seq<u8>, data: Seq<u8>)
    requires
        first_delim(buf, 0) < buf.len(),
        data.len() > 0,
        buf.len() + data.len() < 2 * MAX_MESSAGE_SIZE,
    ensures
        read_outcome(receive_outcome(buf, data).1).0 == read_outcome(buf).0,
        read_outcome(receive_outcome(buf, data).1).1 == read_outcome(buf).1 + data,
{
    lemma_first_delim(buf, 0);
    let pos = first_delim(buf, 0);
    let x = buf + data;
    assert forall|k: int| 0 <= k < pos implies !is_delim(#[trigger] x[k]) by {
        assert(x[k] == buf[k]);
    }
    assert(x[pos] == buf[pos]);
    lemma_first_delim_at(x, pos, 0);
    assert(x.take(pos) =~= buf.take(pos));
    assert(x.skip(pos + 1) =~= buf.skip(pos + 1) + data);
}

} // verus!
