use vstd::prelude::*;

use crate::bytes::copy_range;

verus! {

/// The most bytes that one call of [`Block::read_until`] frames.
pub const READ_UNTIL_LIMIT: usize = 512;

/// The outcome of a step that may have to wait for more input.
#[derive(Debug, PartialEq)]
pub enum Step<T> {
    Ready(T),
    Pending,
}

/// The byte stream under the line reader: bytes received from the source
/// and not yet taken, and whether the source has ended.
///
/// The source itself stays with the caller, who reads a chunk whenever a
/// step is `Pending` and hands it over with [`ReadableStream::feed`]. Once
/// the source has ended, the stream stays ended.
pub struct ReadableStream {
    buffer: Vec<u8>,
    start: usize,
    ended: bool,
    received: Ghost<Seq<u8>>,
}

impl ReadableStream {
    pub closed spec fn wf(&self) -> bool {
        &&& self.start <= self.buffer@.len()
        &&& self.received@ == self.buffer@
    }

    /// The bytes already taken from the stream, in order.
    pub closed spec fn taken(&self) -> Seq<u8> {
        self.buffer@.subrange(0, self.start as int)
    }

    /// The bytes received and not yet taken.
    pub closed spec fn unread(&self) -> Seq<u8> {
        self.buffer@.subrange(self.start as int, self.buffer@.len() as int)
    }

    /// Every byte received since the stream was made.
    pub closed spec fn received(&self) -> Seq<u8> {
        self.received@
    }

    /// Whether the source has ended.
    pub closed spec fn ended(&self) -> bool {
        self.ended
    }

    pub fn new() -> (r: Self)
        ensures
            r.wf(),
            r.taken() == Seq::<u8>::empty(),
            r.unread() == Seq::<u8>::empty(),
            r.received() == Seq::<u8>::empty(),
            !r.ended(),
    {
        let r = ReadableStream {
            buffer: Vec::new(),
            start: 0,
            ended: false,
            received: Ghost(Seq::empty()),
        };
        assert(r.unread() =~= Seq::<u8>::empty());
        assert(r.taken() =~= Seq::<u8>::empty());
        r
    }

    /// Takes a chunk read from the source. An empty chunk means the source
    /// has ended; after that, nothing more is taken.
    pub fn feed(&mut self, chunk: &[u8])
        requires
            old(self).wf(),
        ensures
            final(self).wf(),
            final(self).taken() == old(self).taken(),
            if old(self).ended() {
                *final(self) == *old(self)
            } else if chunk@.len() == 0 {
                &&& final(self).ended()
                &&& final(self).unread() == old(self).unread()
                &&& final(self).received() == old(self).received()
            } else {
                &&& !final(self).ended()
                &&& final(self).unread() == old(self).unread() + chunk@
                &&& final(self).received() == old(self).received() + chunk@
            },
    {
        if self.ended {
            return;
        }
        if chunk.len() == 0 {
            self.ended = true;
            return;
        }
        let mut i: usize = 0;
        while i < chunk.len()
            invariant
                self.start <= self.buffer@.len(),
                old(self).received@ == old(self).buffer@,
                !self.ended,
                self.start == old(self).start,
                self.received == old(self).received,
                i <= chunk@.len(),
                self.buffer@ == old(self).buffer@ + chunk@.subrange(0, i as int),
            decreases chunk@.len() - i,
        {
            self.buffer.push(chunk[i]);
            i = i + 1;
            assert(self.buffer@ =~= old(self).buffer@ + chunk@.subrange(0, i as int));
        }
        assert(chunk@.subrange(0, i as int) =~= chunk@);
        self.received = Ghost(self.received@ + chunk@);
        assert(self.unread() =~= old(self).unread() + chunk@);
        assert(self.taken() =~= old(self).taken());
    }

    /// Marks the source as ended, as after a terminal read error.
    pub fn close(&mut self)
        requires
            old(self).wf(),
        ensures
            final(self).wf(),
            final(self).ended(),
            final(self).taken() == old(self).taken(),
            final(self).unread() == old(self).unread(),
            final(self).received() == old(self).received(),
    {
        self.ended = true;
    }

    /// Whether the source has ended.
    pub fn is_ended(&self) -> (r: bool)
        ensures
            r == self.ended(),
    {
        self.ended
    }

    /// Takes the first `n` unread bytes.
    fn take(&mut self, n: usize) -> (r: Vec<u8>)
        requires
            old(self).wf(),
            n <= old(self).unread().len(),
        ensures
            final(self).wf(),
            r@ == old(self).unread().subrange(0, n as int),
            final(self).taken() == old(self).taken() + r@,
            final(self).unread() == old(self).unread().subrange(n as int, old(self).unread().len() as int),
            final(self).received() == old(self).received(),
            final(self).ended() == old(self).ended(),
    {
        let len = self.buffer.len();
        assert(n <= len - self.start);
        let r = copy_range(self.buffer.as_slice(), self.start, self.start + n);
        self.start = self.start + n;
        assert(r@ =~= old(self).unread().subrange(0, n as int));
        assert(self.taken() =~= old(self).taken() + r@);
        assert(self.unread() =~= old(self).unread().subrange(n as int, old(self).unread().len() as int));
        r
    }

    /// Hands back the bytes received and not yet taken.
    pub fn into_parts(self) -> (r: Vec<u8>)
        requires
            self.wf(),
        ensures
            r@ == self.unread(),
            self.taken() + r@ == self.received(),
    {
        let r = copy_range(self.buffer.as_slice(), self.start, self.buffer.len());
        assert(self.taken() + r@ =~= self.received());
        r
    }
}

/// The stream loses nothing: the bytes taken from it followed by the bytes
/// still unread are exactly the bytes received, in order.
pub proof fn lemma_stream_round_trip(s: &ReadableStream)
    requires
        s.wf(),
    ensures
        s.taken() + s.unread() == s.received(),
{
    assert(s.taken() + s.unread() =~= s.received());
}

/// Where the next frame of `s` ends, scanning from `i` with `k` bytes of the
/// delimiter `d` matched so far: just after a full match of `d`, or at
/// `READ_UNTIL_LIMIT` bytes; `None` when `s` runs out first. A mismatched
/// byte sets the match back to nothing.
pub open spec fn frame_end(d: Seq<u8>, s: Seq<u8>, i: int, k: int) -> Option<int>
    decreases s.len() - i,
{
    if k >= d.len() {
        Some(i)
    } else if i >= READ_UNTIL_LIMIT {
        Some(i)
    } else if i >= s.len() {
        None
    } else {
        frame_end(d, s, i + 1, if s[i] == d[k] { k + 1 } else { 0 })
    }
}

/// The line ending `\r\n`.
pub open spec fn crlf() -> Seq<u8> {
    seq![13u8, 10u8]
}

/// How many unread bytes one read takes: a whole frame when there is one,
/// and everything left once the source has ended; `None` while it must
/// wait for more input.
pub open spec fn frame_len(d: Seq<u8>, s: Seq<u8>, ended: bool) -> Option<int> {
    match frame_end(d, s, 0, 0) {
        Some(n) => Some(n),
        None => if ended {
            Some(s.len() as int)
        } else {
            None
        },
    }
}

proof fn lemma_frame_end_bounds(d: Seq<u8>, s: Seq<u8>, i: int, k: int)
    requires
        0 <= i <= s.len(),
        i <= READ_UNTIL_LIMIT,
    ensures
        frame_end(d, s, i, k) matches Some(n) ==> i <= n <= s.len() && n <= READ_UNTIL_LIMIT,
        frame_end(d, s, i, k) is None ==> s.len() < READ_UNTIL_LIMIT,
    decreases s.len() - i,
{
    if k < d.len() && i < READ_UNTIL_LIMIT && i < s.len() {
        lemma_frame_end_bounds(d, s, i + 1, if s[i] == d[k] { k + 1 } else { 0 });
    }
}

/// A read takes no more than the bytes at hand, and never more than
/// `READ_UNTIL_LIMIT` of them.
pub proof fn lemma_frame_len_bounds(d: Seq<u8>, s: Seq<u8>, ended: bool)
    ensures
        frame_len(d, s, ended) matches Some(n) ==> 0 <= n <= s.len() && n <= READ_UNTIL_LIMIT,
{
    lemma_frame_end_bounds(d, s, 0, 0);
}

/// A line reader over a [`ReadableStream`]: the bytes already framed (the
/// read buffer) and the stream with the bytes still to come.
pub struct Block {
    buffer: Vec<u8>,
    reader: ReadableStream,
}

impl Block {
    /// The bytes framed so far, the read bytes followed by the unread ones
    /// make up everything received.
    pub closed spec fn wf(&self) -> bool {
        &&& self.reader.wf()
        &&& self.buffer@ + self.reader.unread() == self.reader.received()
    }

    /// The bytes framed so far.
    pub closed spec fn read_buffer(&self) -> Seq<u8> {
        self.buffer@
    }

    /// The bytes received and not yet framed.
    pub closed spec fn unread_buffer(&self) -> Seq<u8> {
        self.reader.unread()
    }

    /// Every byte received from the source.
    pub closed spec fn received(&self) -> Seq<u8> {
        self.reader.received()
    }

    /// Whether the source has ended.
    pub closed spec fn ended(&self) -> bool {
        self.reader.ended()
    }

    pub fn new() -> (r: Self)
        ensures
            r.wf(),
            r.read_buffer() == Seq::<u8>::empty(),
            r.unread_buffer() == Seq::<u8>::empty(),
            !r.ended(),
    {
        let r = Block { buffer: Vec::new(), reader: ReadableStream::new() };
        assert(r.buffer@ + r.reader.unread() =~= r.reader.received());
        r
    }

    /// Takes a chunk read from the source; an empty one ends the stream.
    pub fn feed(&mut self, chunk: &[u8])
        requires
            old(self).wf(),
        ensures
            final(self).wf(),
            final(self).read_buffer() == old(self).read_buffer(),
            if old(self).ended() {
                &&& final(self).ended()
                &&& final(self).unread_buffer() == old(self).unread_buffer()
            } else if chunk@.len() == 0 {
                &&& final(self).ended()
                &&& final(self).unread_buffer() == old(self).unread_buffer()
            } else {
                &&& !final(self).ended()
                &&& final(self).unread_buffer() == old(self).unread_buffer() + chunk@
            },
    {
        self.reader.feed(chunk);
        assert(self.buffer@ + self.reader.unread() =~= self.reader.received());
    }

    /// Marks the source as ended.
    pub fn close(&mut self)
        requires
            old(self).wf(),
        ensures
            final(self).wf(),
            final(self).ended(),
            final(self).read_buffer() == old(self).read_buffer(),
            final(self).unread_buffer() == old(self).unread_buffer(),
    {
        self.reader.close();
    }

    /// Frames the next bytes up to and including the delimiter `split`, or
    /// `READ_UNTIL_LIMIT` bytes, whichever comes first; once the source has
    /// ended, whatever is left. The framed bytes move to the read buffer and
    /// a copy is returned. `Pending` means that more input is needed, and
    /// nothing was taken.
    pub fn read_until(&mut self, split: &[u8]) -> (r: Step<Vec<u8>>)
        requires
            old(self).wf(),
            split@.len() > 0,
        ensures
            final(self).wf(),
            final(self).ended() == old(self).ended(),
            final(self).received() == old(self).received(),
            match frame_len(split@, old(self).unread_buffer(), old(self).ended()) {
                Some(n) => {
                    &&& r matches Step::Ready(line)
                    &&& line@ == old(self).unread_buffer().subrange(0, n)
                    &&& final(self).read_buffer() == old(self).read_buffer() + line@
                    &&& final(self).unread_buffer() == old(self).unread_buffer().subrange(
                        n,
                        old(self).unread_buffer().len() as int,
                    )
                },
                None => {
                    &&& r is Pending
                    &&& final(self).read_buffer() == old(self).read_buffer()
                    &&& final(self).unread_buffer() == old(self).unread_buffer()
                },
            },
            r matches Step::Ready(line) ==> line@.len() <= READ_UNTIL_LIMIT,
    {
        let ghost s = self.reader.unread();
        let total = self.reader.buffer.len();
        let available = total - self.reader.start;
        let mut i: usize = 0;
        let mut k: usize = 0;
        while k < split.len() && i < READ_UNTIL_LIMIT && i < available
            invariant
                self.wf(),
                *self == *old(self),
                s == self.reader.unread(),
                available == s.len(),
                total == self.reader.buffer@.len(),
                available == total - self.reader.start,
                i <= s.len(),
                i <= READ_UNTIL_LIMIT,
                k <= split@.len(),
                frame_end(split@, s, 0, 0) == frame_end(split@, s, i as int, k as int),
            decreases s.len() - i,
        {
            let current = self.reader.buffer[self.reader.start + i];
            assert(current == s[i as int]);
            if current == split[k] {
                k = k + 1;
            } else {
                k = 0;
            }
            i = i + 1;
        }
        proof {
            lemma_frame_end_bounds(split@, s, 0, 0);
        }
        let complete = k >= split.len() || i >= READ_UNTIL_LIMIT;
        if !complete && !self.reader.is_ended() {
            return Step::Pending;
        }
        let mut line = self.reader.take(i);
        let copy = copy_range(line.as_slice(), 0, line.len());
        assert(line@.subrange(0, line@.len() as int) =~= line@);
        self.buffer.append(&mut line);
        assert(self.buffer@ + self.reader.unread() =~= self.reader.received()) by {
            assert(s =~= s.subrange(0, i as int) + s.subrange(i as int, s.len() as int));
        }
        Step::Ready(copy)
    }

    /// Frames the next line, up to and including `\r\n`.
    pub fn next_line(&mut self) -> (r: Step<Vec<u8>>)
        requires
            old(self).wf(),
        ensures
            final(self).wf(),
            final(self).ended() == old(self).ended(),
            final(self).received() == old(self).received(),
            match frame_len(crlf(), old(self).unread_buffer(), old(self).ended()) {
                Some(n) => {
                    &&& r matches Step::Ready(line)
                    &&& line@ == old(self).unread_buffer().subrange(0, n)
                    &&& final(self).read_buffer() == old(self).read_buffer() + line@
                    &&& final(self).unread_buffer() == old(self).unread_buffer().subrange(
                        n,
                        old(self).unread_buffer().len() as int,
                    )
                },
                None => {
                    &&& r is Pending
                    &&& final(self).read_buffer() == old(self).read_buffer()
                    &&& final(self).unread_buffer() == old(self).unread_buffer()
                },
            },
            r matches Step::Ready(line) ==> line@.len() <= READ_UNTIL_LIMIT,
    {
        let ending: [u8; 2] = [13, 10];
        assert(ending@ =~= crlf());
        self.read_until(ending.as_slice())
    }

    /// How many bytes have been framed.
    pub fn buffer_size(&self) -> (r: usize)
        ensures
            r == self.read_buffer().len(),
    {
        self.buffer.len()
    }

    /// Surrenders the read buffer and the unread buffer, which a forwarder
    /// writes out in that order.
    pub fn into_parts(self) -> (r: (Vec<u8>, Vec<u8>))
        requires
            self.wf(),
        ensures
            r.0@ == self.read_buffer(),
            r.1@ == self.unread_buffer(),
            r.0@ + r.1@ == self.received(),
    {
        let unread = self.reader.into_parts();
        (self.buffer, unread)
    }
}

/// Nothing is lost in framing: the bytes framed so far followed by the
/// bytes still unread are exactly the bytes received, in order.
pub proof fn lemma_round_trip(b: &Block)
    requires
        b.wf(),
    ensures
        b.read_buffer() + b.unread_buffer() == b.received(),
{
}

} // verus!
