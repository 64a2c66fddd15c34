use vstd::prelude::*;

use std::marker::PhantomData;

use crate::block::{crlf, frame_len, lemma_frame_len_bounds, Block, Step};
use crate::bytes::copy_range;
use crate::header::{self, header_spec, Header, HeaderView};
use crate::stage;
use crate::startline::{self, start_line_spec, StartLineView};

verus! {

/// A line without its trailing `\r\n`, when it has one.
pub open spec fn trimmed(line: Seq<u8>) -> Seq<u8> {
    if line.len() >= 2 && line[line.len() - 2] == 13 && line[line.len() - 1] == 10 {
        line.subrange(0, line.len() - 2)
    } else {
        line
    }
}

/// Removes the trailing `\r\n` of a line, when it has one.
pub fn trim_ending(input: &[u8]) -> (r: Vec<u8>)
    ensures
        r@ == trimmed(input@),
{
    let len = input.len();
    if len >= 2 && input[len - 2] == 13 && input[len - 1] == 10 {
        copy_range(input, 0, len - 2)
    } else {
        let r = copy_range(input, 0, len);
        assert(r@ =~= input@);
        r
    }
}

/// The HTTP preamble parser. The stage `S` says what may be read next: the
/// start line, then header lines, then nothing but the body.
pub struct Model<S> {
    block: Block,
    stage: PhantomData<S>,
}

/// The line that the next read of a parser yields, if the bytes at hand
/// hold one.
pub open spec fn next_line_of<S>(m: &Model<S>) -> Option<Seq<u8>> {
    match frame_len(crlf(), m.unread_buffer(), m.ended()) {
        Some(n) => Some(m.unread_buffer().subrange(0, n)),
        None => None,
    }
}

/// `new_m` is `old_m` after reading that line, or unchanged when there is
/// none yet.
pub open spec fn line_taken<S, T>(old_m: &Model<S>, new_m: &Model<T>) -> bool {
    &&& new_m.wf()
    &&& new_m.received() == old_m.received()
    &&& new_m.ended() == old_m.ended()
    &&& match next_line_of(old_m) {
        Some(line) => {
            &&& new_m.read_buffer() == old_m.read_buffer() + line
            &&& new_m.unread_buffer() == old_m.unread_buffer().subrange(
                line.len() as int,
                old_m.unread_buffer().len() as int,
            )
        },
        None => {
            &&& new_m.read_buffer() == old_m.read_buffer()
            &&& new_m.unread_buffer() == old_m.unread_buffer()
        },
    }
}

/// A start-line step as the contracts see it; `None` for `Ok(None)`.
pub open spec fn start_line_step_view(
    r: Result<Option<startline::StartLine>, startline::Error>,
) -> Option<Result<StartLineView, startline::Error>> {
    match r {
        Ok(Some(s)) => Some(Ok(s@)),
        Ok(None) => None,
        Err(e) => Some(Err(e)),
    }
}

/// A header step as the contracts see it; `None` for `Ok(None)`.
pub open spec fn header_step_view(r: Result<Option<Header>, header::Error>) -> Option<
    Result<HeaderView, header::Error>,
> {
    match r {
        Ok(Some(h)) => Some(Ok(h@)),
        Ok(None) => None,
        Err(e) => Some(Err(e)),
    }
}

impl<S> Model<S> {
    pub closed spec fn wf(&self) -> bool {
        self.block.wf()
    }

    /// The bytes read so far by the parser.
    pub closed spec fn read_buffer(&self) -> Seq<u8> {
        self.block.read_buffer()
    }

    /// The bytes received and not yet read by the parser.
    pub closed spec fn unread_buffer(&self) -> Seq<u8> {
        self.block.unread_buffer()
    }

    /// Every byte received from the client.
    pub closed spec fn received(&self) -> Seq<u8> {
        self.block.received()
    }

    /// Whether the client's stream has ended.
    pub closed spec fn ended(&self) -> bool {
        self.block.ended()
    }

    /// A parser that has received nothing yet.
    pub fn new() -> (r: Self)
        ensures
            r.wf(),
            r.read_buffer() == Seq::<u8>::empty(),
            r.unread_buffer() == Seq::<u8>::empty(),
            !r.ended(),
    {
        Model { block: Block::new(), stage: PhantomData }
    }

    /// Takes a chunk received from the client; an empty one ends the stream.
    pub fn feed(&mut self, chunk: &[u8])
        requires
            old(self).wf(),
        ensures
            final(self).wf(),
            final(self).read_buffer() == old(self).read_buffer(),
            if old(self).ended() || chunk@.len() == 0 {
                &&& final(self).ended()
                &&& final(self).unread_buffer() == old(self).unread_buffer()
            } else {
                &&& !final(self).ended()
                &&& final(self).unread_buffer() == old(self).unread_buffer() + chunk@
            },
    {
        self.block.feed(chunk);
    }

    /// Marks the client's stream as ended.
    pub fn close(&mut self)
        requires
            old(self).wf(),
        ensures
            final(self).wf(),
            final(self).ended(),
            final(self).read_buffer() == old(self).read_buffer(),
            final(self).unread_buffer() == old(self).unread_buffer(),
    {
        self.block.close();
    }

    /// How many bytes the parser has read.
    pub fn buffer_size(&self) -> (r: usize)
        requires
            self.wf(),
        ensures
            r == self.read_buffer().len(),
    {
        self.block.buffer_size()
    }

    /// The read buffer and the unread buffer, which together are every byte
    /// received, in order.
    pub fn into_parts(self) -> (r: (Vec<u8>, Vec<u8>))
        requires
            self.wf(),
        ensures
            r.0@ == self.read_buffer(),
            r.1@ == self.unread_buffer(),
            r.0@ + r.1@ == self.received(),
    {
        self.block.into_parts()
    }
}

impl Model<stage::StartLine> {
    /// Reads and parses the start line. Once it has been read, `Ok(None)`.
    pub fn next(&mut self) -> (r: Step<Result<Option<startline::StartLine>, startline::Error>>)
        requires
            old(self).wf(),
        ensures
            old(self).read_buffer().len() != 0 ==> {
                &&& r == Step::<Result<Option<startline::StartLine>, startline::Error>>::Ready(
                    Ok(None),
                )
                &&& *final(self) == *old(self)
            },
            old(self).read_buffer().len() == 0 ==> {
                &&& line_taken(old(self), final(self))
                &&& match next_line_of(old(self)) {
                    Some(line) => {
                        &&& r matches Step::Ready(res)
                        &&& start_line_step_view(res) == Some(start_line_spec(trimmed(line)))
                    },
                    None => r is Pending,
                }
            },
    {
        if self.block.buffer_size() != 0 {
            return Step::Ready(Ok(None));
        }
        proof {
            lemma_frame_len_bounds(crlf(), self.unread_buffer(), self.ended());
        }
        match self.block.next_line() {
            Step::Pending => Step::Pending,
            Step::Ready(line) => {
                let start_line = trim_ending(line.as_slice());
                match startline::StartLine::parse(start_line.as_slice()) {
                    Ok(s) => Step::Ready(Ok(Some(s))),
                    Err(e) => Step::Ready(Err(e)),
                }
            },
        }
    }

    /// Moves on to the headers; the start line must have been read.
    pub fn skip(self) -> (r: Model<stage::HeaderField>)
        requires
            self.wf(),
            self.read_buffer().len() > 0,
        ensures
            r.wf(),
            r.read_buffer() == self.read_buffer(),
            r.unread_buffer() == self.unread_buffer(),
            r.received() == self.received(),
            r.ended() == self.ended(),
    {
        Model { block: self.block, stage: PhantomData }
    }
}

impl Model<stage::HeaderField> {
    /// Reads and parses one header line; the empty line that ends the
    /// headers gives `Ok(None)`.
    pub fn next(&mut self) -> (r: Step<Result<Option<Header>, header::Error>>)
        requires
            old(self).wf(),
        ensures
            line_taken(old(self), final(self)),
            match next_line_of(old(self)) {
                Some(line) => {
                    &&& r matches Step::Ready(res)
                    &&& line.len() <= 2 ==> res == Ok::<Option<Header>, header::Error>(None)
                    &&& line.len() > 2 ==> header_step_view(res) == Some(
                        header_spec(trimmed(line)),
                    )
                },
                None => r is Pending,
            },
    {
        proof {
            lemma_frame_len_bounds(crlf(), self.unread_buffer(), self.ended());
        }
        match self.block.next_line() {
            Step::Pending => Step::Pending,
            Step::Ready(line) => {
                if line.len() <= 2 {
                    Step::Ready(Ok(None))
                } else {
                    let header_line = trim_ending(line.as_slice());
                    match Header::parse(header_line.as_slice()) {
                        Ok(h) => Step::Ready(Ok(Some(h))),
                        Err(e) => Step::Ready(Err(e)),
                    }
                }
            },
        }
    }

    /// Moves on to the body.
    pub fn skip(self) -> (r: Model<stage::MessageBody>)
        requires
            self.wf(),
        ensures
            r.wf(),
            r.read_buffer() == self.read_buffer(),
            r.unread_buffer() == self.unread_buffer(),
            r.received() == self.received(),
            r.ended() == self.ended(),
    {
        Model { block: self.block, stage: PhantomData }
    }
}

/// Parsing keeps every byte: what the parser has read followed by what it
/// has not yet read is exactly what the client sent so far.
pub proof fn lemma_preamble_round_trip<S>(m: &Model<S>)
    requires
        m.wf(),
    ensures
        m.read_buffer() + m.unread_buffer() == m.received(),
{
    crate::block::lemma_round_trip(&m.block);
}

} // verus!
