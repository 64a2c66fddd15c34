use vstd::prelude::*;

use crate::block::Step;
use crate::bytes::copy_range;
use crate::header::{header_spec, ConnectionState, Header, HeaderView};
use crate::http::{line_taken, next_line_of, trimmed, Model};
use crate::router::{AppState, SocketAddress};
use crate::stage;
use crate::startline::start_line_spec;

verus! {

/// The size of the chunks in which the body is copied.
pub const CHUNK_SIZE: usize = 16384;

/// The keep-alive that a connection upgrade asks for: one day, in seconds.
pub const UPGRADE_KEEP_ALIVE: usize = 86400;

/// Why a request is dropped; the client connection is then closed without
/// a response.
#[derive(Debug, PartialEq, Eq, Structural, Clone, Copy)]
pub enum Error {
    ClientIncompatible,
    ServerIncompatible,
    BadProtocol,
}

/// What the request's headers have set: keep-alive, content length and
/// host hash.
pub type Settings = (usize, usize, u64);

/// The settings after one more header.
pub open spec fn apply_header(h: HeaderView, s: Settings) -> Result<Settings, Error> {
    match h {
        HeaderView::ContentLength(n) => Ok((s.0, n, s.2)),
        HeaderView::Host(x) => Ok((s.0, s.1, x)),
        HeaderView::Unknown(_) => Ok(s),
        HeaderView::TransferEncoding => Err(Error::BadProtocol),
        HeaderView::Connection(c) => if c == ConnectionState::Upgrade {
            Ok((UPGRADE_KEEP_ALIVE, s.1, s.2))
        } else {
            Ok(s)
        },
        HeaderView::KeepAlive(n) => Ok((n, s.1, s.2)),
    }
}

/// What one header read does to the settings: `Ok(false)` at the end of the
/// headers, `Ok(true)` after a header was taken in.
pub open spec fn header_outcome(line: Seq<u8>, s: Settings) -> Result<(bool, Settings), Error> {
    if line.len() <= 2 {
        Ok((false, s))
    } else {
        match header_spec(trimmed(line)) {
            Err(_) => Err(Error::ClientIncompatible),
            Ok(h) => match apply_header(h, s) {
                Ok(s2) => Ok((true, s2)),
                Err(e) => Err(e),
            },
        }
    }
}

/// The smaller of two numbers.
pub open spec fn min(a: int, b: int) -> int {
    if a < b {
        a
    } else {
        b
    }
}

/// How much to copy next of a body with `remaining` bytes still to go.
pub fn next_chunk(remaining: usize) -> (r: usize)
    ensures
        r == min(remaining as int, CHUNK_SIZE as int),
{
    if remaining < CHUNK_SIZE {
        remaining
    } else {
        CHUNK_SIZE
    }
}

/// What to send upstream: the address, the bytes at hand (the preamble and
/// as much of the body as has arrived), and how many body bytes remain to
/// be copied from the client.
pub struct Forward {
    pub upstream: SocketAddress,
    pub head: Vec<u8>,
    pub remaining: usize,
}

/// A request being parsed; the stage `S` says what is read next.
pub struct Request<S> {
    model: Model<S>,
    keep_alive: usize,
    content_length: usize,
    host: u64,
}

impl<S> Request<S> {
    pub closed spec fn wf(&self) -> bool {
        self.model.wf()
    }

    /// The parser underneath.
    pub closed spec fn model(&self) -> Model<S> {
        self.model
    }

    /// The settings taken from the headers so far.
    pub closed spec fn settings(&self) -> Settings {
        (self.keep_alive, self.content_length, self.host)
    }

    /// Takes a chunk received from the client; an empty one ends the stream.
    pub fn feed(&mut self, chunk: &[u8])
        requires
            old(self).wf(),
        ensures
            final(self).wf(),
            final(self).settings() == old(self).settings(),
            final(self).model().read_buffer() == old(self).model().read_buffer(),
            if old(self).model().ended() || chunk@.len() == 0 {
                &&& final(self).model().ended()
                &&& final(self).model().unread_buffer() == old(self).model().unread_buffer()
            } else {
                &&& !final(self).model().ended()
                &&& final(self).model().unread_buffer() == old(self).model().unread_buffer()
                    + chunk@
            },
    {
        self.model.feed(chunk);
    }

    /// Marks the client's stream as ended.
    pub fn close(&mut self)
        requires
            old(self).wf(),
        ensures
            final(self).wf(),
            final(self).settings() == old(self).settings(),
            final(self).model().ended(),
            final(self).model().read_buffer() == old(self).model().read_buffer(),
            final(self).model().unread_buffer() == old(self).model().unread_buffer(),
    {
        self.model.close();
    }

    /// How many bytes the parser has read.
    pub fn buffer_size(&self) -> (r: usize)
        requires
            self.wf(),
        ensures
            r == self.model().read_buffer().len(),
    {
        self.model.buffer_size()
    }
}

impl Request<stage::StartLine> {
    /// A request with nothing received: keep-alive 2, no body, host hash 0.
    pub fn new() -> (r: Self)
        ensures
            r.wf(),
            r.settings() == (2usize, 0usize, 0u64),
            r.model().read_buffer() == Seq::<u8>::empty(),
            r.model().unread_buffer() == Seq::<u8>::empty(),
            !r.model().ended(),
    {
        Request { model: Model::new(), keep_alive: 2, content_length: 0, host: 0 }
    }

    /// Reads the start line. Its value is not kept: the line is forwarded as
    /// it was received. A line that does not parse drops the request.
    pub fn read_start_line(&mut self) -> (r: Step<Result<(), Error>>)
        requires
            old(self).wf(),
        ensures
            final(self).wf(),
            final(self).settings() == old(self).settings(),
            old(self).model().read_buffer().len() != 0 ==> {
                &&& r == Step::<Result<(), Error>>::Ready(Ok(()))
                &&& final(self).model() == old(self).model()
            },
            old(self).model().read_buffer().len() == 0 ==> {
                &&& line_taken(&old(self).model(), &final(self).model())
                &&& match next_line_of(&old(self).model()) {
                    Some(line) => r == Step::<Result<(), Error>>::Ready(
                        if start_line_spec(trimmed(line)) is Ok {
                            Ok(())
                        } else {
                            Err(Error::ClientIncompatible)
                        },
                    ),
                    None => r is Pending,
                }
            },
    {
        match self.model.next() {
            Step::Pending => Step::Pending,
            Step::Ready(Ok(_)) => Step::Ready(Ok(())),
            Step::Ready(Err(_)) => Step::Ready(Err(Error::ClientIncompatible)),
        }
    }

    /// Moves on to the headers; the start line must have been read.
    pub fn skip(self) -> (r: Request<stage::HeaderField>)
        requires
            self.wf(),
            self.model().read_buffer().len() > 0,
        ensures
            r.wf(),
            r.settings() == self.settings(),
            r.model().read_buffer() == self.model().read_buffer(),
            r.model().unread_buffer() == self.model().unread_buffer(),
            r.model().received() == self.model().received(),
            r.model().ended() == self.model().ended(),
    {
        Request {
            model: self.model.skip(),
            keep_alive: self.keep_alive,
            content_length: self.content_length,
            host: self.host,
        }
    }
}

impl Request<stage::HeaderField> {
    /// Takes one header into the settings.
    pub fn apply(&mut self, header: &Header) -> (r: Result<(), Error>)
        ensures
            final(self).model() == old(self).model(),
            match apply_header(header@, old(self).settings()) {
                Ok(s) => r is Ok && final(self).settings() == s,
                Err(e) => r == Err::<(), Error>(e) && final(self).settings() == old(
                    self,
                ).settings(),
            },
    {
        match header {
            Header::ContentLength(n) => {
                self.content_length = *n;
                Ok(())
            },
            Header::Host(x) => {
                self.host = *x;
                Ok(())
            },
            Header::Unknown(_) => Ok(()),
            Header::TransferEncoding => Err(Error::BadProtocol),
            Header::Connection(c) => {
                match c {
                    ConnectionState::Upgrade => {
                        self.keep_alive = UPGRADE_KEEP_ALIVE;
                    },
                    _ => {},
                }
                Ok(())
            },
            Header::KeepAlive(n) => {
                self.keep_alive = *n;
                Ok(())
            },
        }
    }

    /// Reads one header line and takes it into the settings: `Ok(true)`
    /// when a header was taken in, `Ok(false)` at the end of the headers.
    /// A line that does not parse drops the request as incompatible; a
    /// `Transfer-Encoding` header drops it as a protocol this proxy does not
    /// speak.
    pub fn read_header(&mut self) -> (r: Step<Result<bool, Error>>)
        requires
            old(self).wf(),
        ensures
            final(self).wf(),
            line_taken(&old(self).model(), &final(self).model()),
            match next_line_of(&old(self).model()) {
                None => r is Pending && final(self).settings() == old(self).settings(),
                Some(line) => match header_outcome(line, old(self).settings()) {
                    Ok((more, s)) => r == Step::<Result<bool, Error>>::Ready(Ok(more))
                        && final(self).settings() == s,
                    Err(e) => r == Step::<Result<bool, Error>>::Ready(Err(e)),
                },
            },
    {
        match self.model.next() {
            Step::Pending => Step::Pending,
            Step::Ready(Ok(None)) => Step::Ready(Ok(false)),
            Step::Ready(Ok(Some(header))) => match self.apply(&header) {
                Ok(()) => Step::Ready(Ok(true)),
                Err(e) => Step::Ready(Err(e)),
            },
            Step::Ready(Err(_)) => Step::Ready(Err(Error::ClientIncompatible)),
        }
    }

    /// Moves on to the body.
    pub fn skip(self) -> (r: Request<stage::MessageBody>)
        requires
            self.wf(),
        ensures
            r.wf(),
            r.settings() == self.settings(),
            r.model().read_buffer() == self.model().read_buffer(),
            r.model().unread_buffer() == self.model().unread_buffer(),
            r.model().received() == self.model().received(),
            r.model().ended() == self.model().ended(),
    {
        Request {
            model: self.model.skip(),
            keep_alive: self.keep_alive,
            content_length: self.content_length,
            host: self.host,
        }
    }
}

impl Request<stage::MessageBody> {
    pub fn keep_alive(&self) -> (r: usize)
        ensures
            r == self.settings().0,
    {
        self.keep_alive
    }

    pub fn content_length(&self) -> (r: usize)
        ensures
            r == self.settings().1,
    {
        self.content_length
    }

    pub fn host(&self) -> (r: u64)
        ensures
            r == self.settings().2,
    {
        self.host
    }

    /// The read buffer and the unread buffer.
    pub fn into_parts(self) -> (r: (Vec<u8>, Vec<u8>))
        requires
            self.wf(),
        ensures
            r.0@ == self.model().read_buffer(),
            r.1@ == self.model().unread_buffer(),
            r.0@ + r.1@ == self.model().received(),
    {
        self.model.into_parts()
    }

    /// Chooses the upstream for the request's host and lays out what to send
    /// it: the read buffer, then as much of the unread buffer as the content
    /// length covers; the rest of the body is still to come from the client.
    /// An unknown host drops the request.
    pub fn send(self, state: &mut AppState) -> (r: Result<Forward, Error>)
        requires
            self.wf(),
            old(state).wf(),
        ensures
            final(state).wf(),
            final(state).cursors_in_range(),
            final(state).table() == old(state).table(),
            !old(state).table().contains_key(self.settings().2) ==> r == Err::<Forward, Error>(
                Error::ClientIncompatible,
            ),
            old(state).table().contains_key(self.settings().2) ==> {
                let h = self.settings().2;
                let unread = self.model().unread_buffer();
                let sent = min(self.settings().1 as int, unread.len() as int);
                &&& r is Ok
                &&& r->Ok_0.upstream == old(state).table()[h][old(state).cursor(h)]
                &&& old(state).table()[h].contains(r->Ok_0.upstream)
                &&& r->Ok_0.head@ == self.model().read_buffer() + unread.subrange(0, sent)
                &&& r->Ok_0.remaining == self.settings().1 - sent
                &&& final(state).cursor(h) == (old(state).cursor(h) + 1) % (old(
                    state,
                ).table()[h].len() as int)
            },
            forall|h: u64|
                h != self.settings().2 && #[trigger] old(state).table().contains_key(h)
                    ==> final(state).cursor(h) == old(state).cursor(h),
    {
        let content_length = self.content_length;
        let upstream = match state.route(self.host) {
            Some(a) => a,
            None => {
                return Err(Error::ClientIncompatible);
            },
        };
        let (mut head, unread) = self.model.into_parts();
        let sent = if content_length < unread.len() {
            content_length
        } else {
            unread.len()
        };
        let mut body = copy_range(unread.as_slice(), 0, sent);
        head.append(&mut body);
        Ok(Forward { upstream, head, remaining: content_length - sent })
    }
}

} // verus!
