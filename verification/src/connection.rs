//! One client connection: a state machine over reading a request, writing
//! its response, and being closed.
//!
//! The machine never touches a socket. Its owner makes the non-blocking read
//! or write that the state calls for and hands in what came of it; the machine
//! says what state follows and which readiness to wait for next. One request is
//! in flight at a time: while a response is being written nothing is read.

use crate::proto::{
    decode, frame, law_decode_frame, law_decode_prefix, parse_request, well_formed, Decoded,
    Parsed, Request, RequestView,
};
use vstd::prelude::*;
use vstd::slice::slice_subrange;

verus! {

/// The readiness that a connection waits for.
#[derive(Clone, Copy, Debug, PartialEq, Eq, Structural)]
pub enum Interest {
    /// The socket can be read.
    Readable,
    /// The socket can be written.
    Writable,
    /// Nothing: the connection is closed.
    Nothing,
}

/// What came of a non-blocking read.
#[derive(Debug)]
pub enum ReadOutcome {
    /// These bytes were read. No bytes at all mean that the peer has closed.
    Data(Vec<u8>),
    /// Nothing was there to read.
    WouldBlock,
    /// The peer has closed the stream.
    End,
    /// The read failed.
    Failed,
}

/// What came of a non-blocking write.
#[derive(Clone, Copy, Debug)]
pub enum WriteOutcome {
    /// This many of the bytes offered were accepted.
    Wrote(usize),
    /// Nothing could be written.
    WouldBlock,
    /// The write failed.
    Failed,
}

/// The I/O that a readiness notification calls for.
#[derive(Clone, Copy, Debug, PartialEq, Eq, Structural)]
pub enum Task {
    /// Read from the socket.
    Read,
    /// Write the unflushed bytes of the response to the socket.
    Write,
    /// None: the notification is not of the kind that the state waits for.
    Mismatch,
}

/// The state of a connection.
#[derive(Debug)]
pub enum State {
    /// Input is being gathered; the bytes are those received and not yet
    /// parsed.
    Reading(Vec<u8>),
    /// A response is being written; the count is that of the bytes already
    /// flushed.
    Writing(Vec<u8>, usize),
    /// The connection is over.
    Closed,
}

/// The state of a connection as a mathematical value.
pub ghost enum StateView {
    Reading(Seq<u8>),
    Writing(Seq<u8>, nat),
    Closed,
}

impl View for State {
    type V = StateView;

    open spec fn view(&self) -> StateView {
        match self {
            State::Reading(buf) => StateView::Reading(buf@),
            State::Writing(bytes, offset) => StateView::Writing(bytes@, *offset as nat),
            State::Closed => StateView::Closed,
        }
    }
}

impl StateView {
    /// No more has been flushed than there is.
    pub open spec fn wf(self) -> bool {
        self matches StateView::Writing(bytes, offset) ==> offset <= bytes.len()
    }

    /// The state is one in which a connection waits for its socket: it is
    /// not closed, and while it reads it has not yet received a whole
    /// request, nor bytes that hold none.
    pub open spec fn waiting(self) -> bool {
        match self {
            StateView::Reading(buf) => decode(buf) is Incomplete,
            StateView::Writing(_, _) => true,
            StateView::Closed => false,
        }
    }

    /// The readiness that the state waits for.
    pub open spec fn interest(self) -> Interest {
        match self {
            StateView::Reading(_) => Interest::Readable,
            StateView::Writing(_, _) => Interest::Writable,
            StateView::Closed => Interest::Nothing,
        }
    }

    /// The I/O that a notification calls for in this state.
    pub open spec fn task(self, readable: bool, writable: bool) -> Task {
        match self {
            StateView::Reading(_) if readable => Task::Read,
            StateView::Writing(_, _) if writable => Task::Write,
            _ => Task::Mismatch,
        }
    }

    /// The bytes of the response that are still to be flushed.
    pub open spec fn unflushed(self) -> Seq<u8> {
        match self {
            StateView::Writing(bytes, offset) => bytes.skip(offset as int),
            _ => Seq::empty(),
        }
    }

    /// The state after the response `bytes` has been handed over.
    pub open spec fn replied(self, bytes: Seq<u8>) -> StateView {
        StateView::Writing(bytes, 0)
    }

    /// The state after the end of a response may have been reached: once all
    /// is flushed, reading begins again, with nothing buffered.
    pub open spec fn drained(self) -> StateView {
        match self {
            StateView::Writing(bytes, offset) if offset >= bytes.len() => StateView::Reading(
                Seq::empty(),
            ),
            _ => self,
        }
    }

    /// The state after `data` has been received while reading: the bytes join
    /// the buffer, and a buffer that holds no request closes the connection.
    pub open spec fn received(self, data: Seq<u8>) -> StateView {
        match self {
            StateView::Reading(buf) => if decode(buf + data) is Malformed {
                StateView::Closed
            } else {
                StateView::Reading(buf + data)
            },
            _ => self,
        }
    }

    /// The request that is complete once `data` has been received while
    /// reading.
    pub open spec fn request(self, data: Seq<u8>) -> Option<RequestView> {
        match self {
            StateView::Reading(buf) => match decode(buf + data) {
                Decoded::Complete(request, _) => Some(request),
                _ => None,
            },
            _ => None,
        }
    }

    /// The response has `n` more bytes to flush.
    pub open spec fn holds(self, n: nat) -> bool {
        self matches StateView::Writing(bytes, offset) && offset + n <= bytes.len()
    }

    /// The state after `n` more bytes count as flushed, where the response
    /// has them.
    pub open spec fn advanced(self, n: nat) -> StateView {
        match self {
            StateView::Writing(bytes, offset) if offset + n <= bytes.len() => StateView::Writing(
                bytes,
                offset + n,
            ),
            _ => self,
        }
    }

    /// The state after `n` more bytes have been flushed while writing. More
    /// than were offered cannot have been: that closes the connection.
    pub open spec fn flushed(self, n: nat) -> StateView {
        match self {
            StateView::Writing(_, _) => if self.holds(n) {
                self.advanced(n).drained()
            } else {
                StateView::Closed
            },
            _ => self,
        }
    }
}

/// What came of a read, as a mathematical value.
pub ghost enum ReadView {
    Data(Seq<u8>),
    WouldBlock,
    End,
    Failed,
}

impl View for ReadOutcome {
    type V = ReadView;

    open spec fn view(&self) -> ReadView {
        match self {
            ReadOutcome::Data(bytes) => ReadView::Data(bytes@),
            ReadOutcome::WouldBlock => ReadView::WouldBlock,
            ReadOutcome::End => ReadView::End,
            ReadOutcome::Failed => ReadView::Failed,
        }
    }
}

impl ReadView {
    /// The bytes that the read brought.
    pub open spec fn data(self) -> Seq<u8> {
        match self {
            ReadView::Data(bytes) => bytes,
            _ => Seq::empty(),
        }
    }

    /// The read has shown that the stream is over: the peer closed it, or the
    /// read failed.
    pub open spec fn over(self) -> bool {
        match self {
            ReadView::Data(bytes) => bytes.len() == 0,
            ReadView::WouldBlock => false,
            ReadView::End => true,
            ReadView::Failed => true,
        }
    }
}

impl WriteOutcome {
    /// The count of bytes that the write took.
    pub open spec fn count(self) -> nat {
        match self {
            WriteOutcome::Wrote(n) => n as nat,
            _ => 0,
        }
    }
}

impl StateView {
    /// The state after a read attempt.
    pub open spec fn after_read(self, outcome: ReadView) -> StateView {
        match self {
            StateView::Reading(_) => if outcome.over() {
                StateView::Closed
            } else {
                self.received(outcome.data())
            },
            _ => self,
        }
    }

    /// The request that a read attempt has completed.
    pub open spec fn read_request(self, outcome: ReadView) -> Option<RequestView> {
        if outcome.over() {
            None
        } else {
            self.request(outcome.data())
        }
    }

    /// The state after a write attempt.
    pub open spec fn after_write(self, outcome: WriteOutcome) -> StateView {
        match self {
            StateView::Writing(_, _) => if outcome is Failed {
                StateView::Closed
            } else {
                self.flushed(outcome.count())
            },
            _ => self,
        }
    }
}

impl State {
    /// The buffer of received bytes, while reading.
    pub fn read_buf(&self) -> (buf: Option<&Vec<u8>>)
        ensures
            match self@ {
                StateView::Reading(bytes) => buf matches Some(b) && b@ == bytes,
                _ => buf is None,
            },
    {
        match self {
            State::Reading(buf) => Some(buf),
            _ => None,
        }
    }

    /// The bytes of the response that are still to be flushed, while writing.
    pub fn write_buf(&self) -> (rest: Option<&[u8]>)
        requires
            self@.wf(),
        ensures
            match self@ {
                StateView::Writing(_, _) => rest matches Some(r) && r@ == self@.unflushed(),
                _ => rest is None,
            },
    {
        match self {
            State::Writing(bytes, offset) => Some(
                slice_subrange(bytes.as_slice(), *offset, bytes.len()),
            ),
            _ => None,
        }
    }

    /// Reads a request off the buffer, while reading.
    pub fn parse_command(&self) -> (parsed: Option<Parsed>)
        ensures
            match self@ {
                StateView::Reading(bytes) => parsed matches Some(p) && p@ == decode(bytes),
                _ => parsed is None,
            },
    {
        match self.read_buf() {
            Some(buf) => Some(parse_request(buf.as_slice())),
            None => None,
        }
    }

    /// Begins to write the response `buf`.
    pub fn transition_to_writing(&mut self, buf: Vec<u8>)
        ensures
            final(self)@ == old(self)@.replied(buf@),
    {
        *self = State::Writing(buf, 0);
    }

    /// Counts `count` more bytes of the response as flushed, while writing.
    /// It refuses, and changes nothing, where the response has not that many
    /// bytes left, and outside the writing state.
    pub fn advance(&mut self, count: usize) -> (done: bool)
        requires
            old(self)@.wf(),
        ensures
            done == old(self)@.holds(count as nat),
            final(self)@ == old(self)@.advanced(count as nat),
    {
        match self {
            State::Writing(bytes, offset) => if count <= bytes.len() - *offset {
                *offset = *offset + count;
                true
            } else {
                false
            },
            _ => false,
        }
    }

    /// Goes back to reading, with an empty buffer, once the response is
    /// flushed to its end.
    pub fn try_transition_to_reading(&mut self)
        ensures
            final(self)@ == old(self)@.drained(),
    {
        let done = match self {
            State::Writing(bytes, offset) => *offset >= bytes.len(),
            _ => false,
        };
        if done {
            *self = State::Reading(Vec::new());
        }
    }
}

impl State {
    /// The buffer of received bytes, to add to, while reading.
    pub fn mut_read_buf(&mut self) -> (buf: Option<&mut Vec<u8>>)
        ensures
            match old(self)@ {
                StateView::Reading(bytes) => buf matches Some(b) && b@ == bytes && final(self)@
                    == StateView::Reading(final(b)@),
                _ => buf is None && final(self)@ == old(self)@,
            },
    {
        match self {
            State::Reading(buf) => Some(buf),
            _ => None,
        }
    }
}

/// One client connection.
#[derive(Debug)]
pub struct Connection {
    /// The identifier under which the connection is registered.
    pub token: usize,
    /// Where the connection stands.
    pub state: State,
}

impl Connection {
    /// A connection that has just been accepted: it reads, and has received
    /// nothing yet.
    pub fn new(token: usize) -> (connection: Connection)
        ensures
            connection.token == token,
            connection.state@ == StateView::Reading(Seq::empty()),
    {
        Connection { token, state: State::Reading(Vec::new()) }
    }

    /// The I/O that a readiness notification calls for: a read while reading
    /// and readable, a write while writing and writable. Any other
    /// notification does not belong to the state.
    pub fn ready(&self, readable: bool, writable: bool) -> (task: Task)
        ensures
            task == self.state@.task(readable, writable),
    {
        match self.state {
            State::Reading(_) => if readable {
                Task::Read
            } else {
                Task::Mismatch
            },
            State::Writing(_, _) => if writable {
                Task::Write
            } else {
                Task::Mismatch
            },
            State::Closed => Task::Mismatch,
        }
    }

    /// Takes in what a read attempt brought. Bytes join the buffer, and the
    /// request that they complete is returned; the end of the stream, a failed
    /// read and a buffer that holds no request close the connection. Outside
    /// the reading state nothing changes.
    pub fn read(&mut self, outcome: ReadOutcome) -> (request: Option<Request>)
        ensures
            final(self).token == old(self).token,
            final(self).state@ == old(self).state@.after_read(outcome@),
            match old(self).state@.read_request(outcome@) {
                Some(read) => request matches Some(r) && r@ == read,
                None => request is None,
            },
    {
        let over = match outcome {
            ReadOutcome::End | ReadOutcome::Failed => true,
            ReadOutcome::WouldBlock => false,
            ReadOutcome::Data(mut bytes) => match self.state.mut_read_buf() {
                Some(buf) => {
                    let none = bytes.len() == 0;
                    buf.append(&mut bytes);
                    none
                },
                None => false,
            },
        };
        let parsed = match self.state.parse_command() {
            None => {
                return None;
            },
            Some(parsed) => if over {
                Parsed::Malformed
            } else {
                parsed
            },
        };
        proof {
            let buf = old(self).state@->Reading_0;
            assert(buf + Seq::<u8>::empty() =~= buf);
        }
        match parsed {
            Parsed::Complete(request, _) => Some(request),
            Parsed::Incomplete => None,
            Parsed::Malformed => {
                self.state = State::Closed;
                None
            },
        }
    }

    /// Hands over the response to the request just read: the connection
    /// begins to write it.
    pub fn reply(&mut self, buf: Vec<u8>)
        ensures
            final(self).token == old(self).token,
            final(self).state@ == old(self).state@.replied(buf@),
    {
        self.state.transition_to_writing(buf);
    }

    /// Takes in what a write attempt brought. The bytes accepted count as
    /// flushed, and reading begins again once the response is out; a failed
    /// write closes the connection. Outside the writing state nothing
    /// changes.
    pub fn write(&mut self, outcome: WriteOutcome)
        requires
            old(self).state@.wf(),
        ensures
            final(self).token == old(self).token,
            final(self).state@ == old(self).state@.after_write(outcome),
            final(self).state@.wf(),
    {
        let count: usize = match outcome {
            WriteOutcome::Wrote(n) => n,
            WriteOutcome::WouldBlock => 0,
            WriteOutcome::Failed => {
                if let State::Writing(_, _) = self.state {
                    self.state = State::Closed;
                }
                return ;
            },
        };
        if self.state.advance(count) {
            self.state.try_transition_to_reading();
        } else if let State::Writing(_, _) = self.state {
            self.state = State::Closed;
        }
    }

    /// The readiness to arm the connection for, as its state has it.
    pub fn reregister(&self) -> (interest: Interest)
        ensures
            interest == self.state@.interest(),
    {
        match self.state {
            State::Reading(_) => Interest::Readable,
            State::Writing(_, _) => Interest::Writable,
            State::Closed => Interest::Nothing,
        }
    }

    /// Whether the connection is over.
    pub fn is_closed(&self) -> (closed: bool)
        ensures
            closed == (self.state@ is Closed),
    {
        match self.state {
            State::Closed => true,
            _ => false,
        }
    }
}

/// The bytes of several pieces, one after another.
pub open spec fn joined(pieces: Seq<Seq<u8>>) -> Seq<u8>
    decreases pieces.len(),
{
    if pieces.len() == 0 {
        Seq::empty()
    } else {
        joined(pieces.drop_last()) + pieces.last()
    }
}

impl StateView {
    /// The state after several pieces have been received, one after another.
    pub open spec fn fed(self, pieces: Seq<Seq<u8>>) -> StateView
        decreases pieces.len(),
    {
        if pieces.len() == 0 {
            self
        } else {
            self.fed(pieces.drop_last()).received(pieces.last())
        }
    }
}

/// The first pieces of a sequence join to the first bytes of the whole.
proof fn lemma_joined_take(pieces: Seq<Seq<u8>>, k: int)
    requires
        0 <= k <= pieces.len(),
    ensures
        joined(pieces.take(k)).len() <= joined(pieces).len(),
        joined(pieces.take(k)) == joined(pieces).take(joined(pieces.take(k)).len() as int),
        k < pieces.len() && pieces.last().len() > 0 ==> joined(pieces.take(k)).len() < joined(
            pieces,
        ).len(),
    decreases pieces.len(),
{
    if k == pieces.len() {
        assert(pieces.take(k) =~= pieces);
        assert(joined(pieces) =~= joined(pieces).take(joined(pieces).len() as int));
    } else {
        let front = pieces.drop_last();
        lemma_joined_take(front, k);
        assert(front.take(k) =~= pieces.take(k));
        assert(joined(front.take(k)) =~= joined(pieces).take(joined(front.take(k)).len() as int));
    }
}

/// While less than a whole request has come, the pieces received are
/// buffered and nothing else happens.
pub proof fn lemma_fed_prefix(request: RequestView, pieces: Seq<Seq<u8>>, k: int)
    requires
        well_formed(request),
        joined(pieces) == frame(request),
        pieces.len() > 0,
        pieces.last().len() > 0,
        0 <= k < pieces.len(),
    ensures
        StateView::Reading(Seq::empty()).fed(pieces.take(k)) == StateView::Reading(
            joined(pieces.take(k)),
        ),
        decode(joined(pieces.take(k))) == Decoded::Incomplete,
        joined(pieces.take(k + 1)) == joined(pieces.take(k)) + pieces[k],
    decreases k,
{
    lemma_joined_take(pieces, k);
    law_decode_prefix(request, joined(pieces.take(k)).len() as int);
    assert(pieces.take(k + 1).drop_last() =~= pieces.take(k));
    if k > 0 {
        lemma_fed_prefix(request, pieces, k - 1);
        assert(pieces.take(k).drop_last() =~= pieces.take(k - 1));
    }
}

/// A request that comes in pieces is the request that comes whole: nothing
/// is complete before the last piece, and with the last piece the request is
/// read that one piece holding all the bytes would have given.
pub proof fn law_request_in_pieces(request: RequestView, pieces: Seq<Seq<u8>>)
    requires
        well_formed(request),
        joined(pieces) == frame(request),
        pieces.len() > 0,
        pieces.last().len() > 0,
    ensures
        forall|k: int|
            0 <= k < pieces.len() - 1 ==> (#[trigger] StateView::Reading(Seq::empty()).fed(
                pieces.take(k),
            )).request(pieces[k]) is None,
        StateView::Reading(Seq::empty()).fed(pieces.drop_last()).request(pieces.last()) == Some(
            request,
        ),
        StateView::Reading(Seq::empty()).request(frame(request)) == Some(request),
{
    let start = StateView::Reading(Seq::empty());
    assert forall|k: int| 0 <= k < pieces.len() - 1 implies (#[trigger] start.fed(
        pieces.take(k),
    )).request(pieces[k]) is None by {
        lemma_fed_prefix(request, pieces, k);
        lemma_fed_prefix(request, pieces, k + 1);
        assert(pieces.take(k + 1).drop_last() =~= pieces.take(k));
    }
    lemma_fed_prefix(request, pieces, pieces.len() - 1);
    assert(pieces.take(pieces.len() - 1) =~= pieces.drop_last());
    law_decode_frame(request, Seq::empty());
    assert(frame(request) + Seq::<u8>::empty() =~= frame(request));
    assert(Seq::<u8>::empty() + frame(request) =~= frame(request));
}

/// As long as the bytes received hold no whole request, a connection that
/// reads does not begin to write.
pub proof fn law_no_response_before_request(buf: Seq<u8>, outcome: ReadView)
    requires
        !(decode(buf + outcome.data()) is Complete),
    ensures
        StateView::Reading(buf).read_request(outcome) is None,
        !(StateView::Reading(buf).after_read(outcome) is Writing),
{
}

} // verus!
