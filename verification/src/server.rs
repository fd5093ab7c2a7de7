//! The reactor: the table of connections and the store, driven by readiness
//! notifications.
//!
//! The reactor owns no socket. For each notification its owner asks `ready`
//! which I/O is called for, makes that one non-blocking call, and reports the
//! outcome to `complete`, which moves the connection on, serves the request
//! that has become complete, and says what to do with the socket. Every
//! interest is one-shot: the action names the interest to arm next, and a
//! connection that is closed is armed for nothing and leaves the table.

use crate::connection::{
    joined, lemma_fed_prefix, Interest, ReadOutcome, ReadView, StateView, Task, WriteOutcome,
};
use crate::proto::{
    apply, frame, get_of, handle, law_decode_frame, lemma_nothing_is_incomplete, respond, set_of,
    well_formed, RequestView,
};
use crate::store::Store;
use crate::table::{Table, FIRST, LISTENER};
use vstd::prelude::*;
use vstd::utf8::*;

verus! {

/// What came of a non-blocking accept.
#[derive(Clone, Copy, Debug, PartialEq, Eq, Structural)]
pub enum AcceptOutcome {
    /// A socket was accepted.
    Accepted,
    /// No connection was waiting.
    WouldBlock,
    /// The accept failed.
    Failed,
}

/// The outcome of the I/O that a notification called for.
#[derive(Debug)]
pub enum Event {
    /// An accept was tried on the listening socket.
    Accept(AcceptOutcome),
    /// A read was tried on a connection's socket.
    Read(ReadOutcome),
    /// A write of the unflushed bytes was tried on a connection's socket.
    Write(WriteOutcome),
}

/// An event as a mathematical value.
pub ghost enum EventView {
    Accept(AcceptOutcome),
    Read(ReadView),
    Write(WriteOutcome),
}

impl View for Event {
    type V = EventView;

    open spec fn view(&self) -> EventView {
        match self {
            Event::Accept(outcome) => EventView::Accept(*outcome),
            Event::Read(outcome) => EventView::Read(outcome@),
            Event::Write(outcome) => EventView::Write(*outcome),
        }
    }
}

/// The I/O that a notification calls for.
#[derive(Debug)]
pub enum Plan<'a> {
    /// Accept a connection on the listening socket.
    Accept,
    /// Read from the connection's socket.
    Read,
    /// Write these bytes, the unflushed part of the response, to the
    /// connection's socket.
    Write(&'a [u8]),
    /// None: the notification is not of the kind that is waited for, which
    /// is this interest. This is a defect of the caller, not of a request.
    Mismatch(Interest),
    /// None: no connection has this token.
    Unknown,
}

/// What the owner of the sockets has to do after an event.
#[derive(Clone, Copy, Debug, PartialEq, Eq, Structural)]
pub enum Action {
    /// Keep the accepted socket under this token and arm it for reading.
    Register(usize),
    /// Arm the connection's socket for this interest.
    Rearm(usize, Interest),
    /// The connection is over and has left the table: release its socket.
    Close(usize),
    /// The listener has failed: accept no more. The connections that there
    /// are go on being served.
    StopAccepting,
    /// Release the accepted socket: it cannot be served.
    Refuse,
    /// Nothing.
    Nothing,
}

/// The reactor as a mathematical value.
pub ghost struct ServerView {
    /// The state of each live connection, under its token.
    pub connections: Map<usize, StateView>,
    /// The store that every connection reads and writes.
    pub storage: Map<Seq<char>, Seq<char>>,
    /// Whether new connections are accepted.
    pub accepting: bool,
}

/// The request that an event completes on a connection.
pub open spec fn completed(state: StateView, event: EventView) -> Option<RequestView> {
    match event {
        EventView::Read(outcome) => state.read_request(outcome),
        _ => None,
    }
}

/// The state of a connection after an event, the store being `storage`
/// before it: a read moves on the reading, the request that it completes is
/// answered from the store, and a write moves on the writing.
pub open spec fn moved(
    state: StateView,
    storage: Map<Seq<char>, Seq<char>>,
    event: EventView,
) -> StateView {
    match event {
        EventView::Accept(_) => state,
        EventView::Read(outcome) => match state.read_request(outcome) {
            Some(request) => state.after_read(outcome).replied(respond(storage, request)),
            None => state.after_read(outcome),
        },
        EventView::Write(outcome) => state.after_write(outcome),
    }
}

/// The store after an event on a connection.
pub open spec fn stored(
    state: StateView,
    storage: Map<Seq<char>, Seq<char>>,
    event: EventView,
) -> Map<Seq<char>, Seq<char>> {
    match completed(state, event) {
        Some(request) => apply(storage, request),
        None => storage,
    }
}

impl ServerView {
    /// The I/O that a notification for `token` calls for.
    pub open spec fn plan(self, token: usize, readable: bool, writable: bool) -> Task {
        self.connections[token].task(readable, writable)
    }

    /// The reactor after an event on the connection `token`. A connection
    /// that the event has closed is gone from the table.
    pub open spec fn served(self, token: usize, event: EventView) -> ServerView {
        if token == LISTENER || event is Accept || !self.connections.contains_key(token) {
            self
        } else {
            let state = moved(self.connections[token], self.storage, event);
            ServerView {
                connections: if state is Closed {
                    self.connections.remove(token)
                } else {
                    self.connections.insert(token, state)
                },
                storage: stored(self.connections[token], self.storage, event),
                accepting: self.accepting,
            }
        }
    }

    /// What is to be done with the socket of the connection `token` after an
    /// event on it.
    pub open spec fn answer(self, token: usize, event: EventView) -> Action {
        if token == LISTENER || event is Accept || !self.connections.contains_key(token) {
            Action::Nothing
        } else {
            let state = moved(self.connections[token], self.storage, event);
            if state is Closed {
                Action::Close(token)
            } else {
                Action::Rearm(token, state.interest())
            }
        }
    }

    /// The reactor `after` and the action `action` are what an event on the
    /// listener leads to. A socket that was accepted gets a token that no
    /// live connection has and begins to read; it is refused where nothing is
    /// accepted any more, or where no token is left. A failed accept ends the
    /// accepting and nothing else.
    pub open spec fn listened(self, outcome: AcceptOutcome, after: ServerView, action: Action) -> bool {
        match outcome {
            AcceptOutcome::WouldBlock => after == self && action == Action::Nothing,
            AcceptOutcome::Failed => {
                &&& after == ServerView { accepting: false, ..self }
                &&& action == if self.accepting {
                    Action::StopAccepting
                } else {
                    Action::Nothing
                }
            },
            AcceptOutcome::Accepted => match action {
                Action::Register(token) => {
                    &&& self.accepting
                    &&& token != LISTENER
                    &&& !self.connections.contains_key(token)
                    &&& after == ServerView {
                        connections: self.connections.insert(
                            token,
                            StateView::Reading(Seq::empty()),
                        ),
                        ..self
                    }
                },
                Action::Refuse => {
                    &&& after == self
                    &&& !self.accepting || forall|t: usize|
                        FIRST <= t < usize::MAX ==> self.connections.contains_key(t)
                },
                _ => false,
            },
        }
    }
}

/// The server: every live connection, and the one store that they share.
pub struct Remcached {
    connections: Table,
    storage: Store,
    accepting: bool,
}

impl View for Remcached {
    type V = ServerView;

    closed spec fn view(&self) -> ServerView {
        ServerView {
            connections: self.connections@,
            storage: self.storage@,
            accepting: self.accepting,
        }
    }
}

impl Remcached {
    /// The table of connections is sound.
    pub closed spec fn wf(&self) -> bool {
        &&& self.connections.wf()
        &&& forall|t: usize| #[trigger]
            self.connections@.contains_key(t) ==> self.connections@[t].waiting()
    }

    /// In a sound server no connection has the listener's token, no
    /// connection is closed, none has flushed more than its response holds,
    /// and one that reads has not yet received a whole request.
    pub proof fn lemma_wf(&self)
        requires
            self.wf(),
        ensures
            !self@.connections.contains_key(LISTENER),
            forall|t: usize| #[trigger]
                self@.connections.contains_key(t) ==> self@.connections[t].wf()
                    && self@.connections[t].waiting(),
    {
        self.connections.lemma_wf();
    }

    /// A server without connections, with an empty store, that accepts.
    pub fn new() -> (server: Remcached)
        ensures
            server.wf(),
            server@ == (ServerView {
                connections: Map::empty(),
                storage: Map::empty(),
                accepting: true,
            }),
    {
        Remcached { connections: Table::new(), storage: Store::new(), accepting: true }
    }

    /// The store.
    pub fn storage(&self) -> (storage: &Store)
        ensures
            storage@ == self@.storage,
    {
        &self.storage
    }

    /// The I/O that a readiness notification for `token` calls for. On the
    /// listener a readable notification calls for an accept, as long as the
    /// server accepts; on a connection, what its state waits for.
    pub fn ready(&self, token: usize, readable: bool, writable: bool) -> (plan: Plan<'_>)
        requires
            self.wf(),
        ensures
            token == LISTENER ==> plan == if self@.accepting && readable {
                Plan::Accept
            } else if self@.accepting {
                Plan::Mismatch(Interest::Readable)
            } else {
                Plan::Mismatch(Interest::Nothing)
            },
            token != LISTENER && !self@.connections.contains_key(token) ==> plan is Unknown,
            token != LISTENER && self@.connections.contains_key(token) ==> match self@.plan(
                token,
                readable,
                writable,
            ) {
                Task::Read => plan is Read,
                Task::Write => plan matches Plan::Write(bytes) && bytes@
                    == self@.connections[token].unflushed(),
                Task::Mismatch => plan == Plan::Mismatch(self@.connections[token].interest()),
            },
    {
        proof {
            self.connections.lemma_wf();
        }
        if token == LISTENER {
            return if self.accepting && readable {
                Plan::Accept
            } else if self.accepting {
                Plan::Mismatch(Interest::Readable)
            } else {
                Plan::Mismatch(Interest::Nothing)
            };
        }
        match self.connections.get(token) {
            None => Plan::Unknown,
            Some(connection) => match connection.ready(readable, writable) {
                Task::Read => Plan::Read,
                Task::Mismatch => Plan::Mismatch(connection.reregister()),
                Task::Write => match connection.state.write_buf() {
                    Some(bytes) => Plan::Write(bytes),
                    None => Plan::Mismatch(connection.reregister()),
                },
            },
        }
    }

    /// Takes in the outcome of the I/O that a notification for `token` called
    /// for, and says what to do with the socket.
    ///
    /// On the listener an accepted socket becomes a connection. On a
    /// connection a read or a write moves its state on; a request that a read
    /// completes is served from the store, and its response is what the
    /// connection then writes. A connection that is closed leaves the table.
    /// An event that does not belong to the token changes nothing.
    pub fn complete(&mut self, token: usize, event: Event) -> (action: Action)
        requires
            old(self).wf(),
        ensures
            final(self).wf(),
            token == LISTENER ==> match event@ {
                EventView::Accept(outcome) => old(self)@.listened(outcome, final(self)@, action),
                _ => final(self)@ == old(self)@ && action == Action::Nothing,
            },
            token != LISTENER ==> final(self)@ == old(self)@.served(token, event@) && action
                == old(self)@.answer(token, event@),
    {
        proof {
            self.connections.lemma_wf();
        }
        if token == LISTENER {
            return match event {
                Event::Accept(outcome) => self.accepted(outcome),
                _ => Action::Nothing,
            };
        }
        if let Event::Accept(_) = event {
            return Action::Nothing;
        }
        let ghost before = self@;
        let connection = match self.connections.get_mut(token) {
            None => {
                return Action::Nothing;
            },
            Some(connection) => connection,
        };
        match event {
            Event::Accept(_) => {},
            Event::Read(outcome) => {
                if let Some(request) = connection.read(outcome) {
                    let response = handle(request, &mut self.storage);
                    connection.reply(response);
                }
            },
            Event::Write(outcome) => {
                connection.write(outcome);
            },
        }
        let closed = connection.is_closed();
        let interest = connection.reregister();
        if closed {
            let _ = self.connections.remove(token);
            assert(self@.connections =~= before.connections.remove(token));
            Action::Close(token)
        } else {
            Action::Rearm(token, interest)
        }
    }

    /// Takes in the outcome of an accept on the listener.
    fn accepted(&mut self, outcome: AcceptOutcome) -> (action: Action)
        requires
            old(self).wf(),
        ensures
            final(self).wf(),
            old(self)@.listened(outcome, final(self)@, action),
    {
        match outcome {
            AcceptOutcome::WouldBlock => Action::Nothing,
            AcceptOutcome::Failed => {
                let was = self.accepting;
                self.accepting = false;
                if was {
                    Action::StopAccepting
                } else {
                    Action::Nothing
                }
            },
            AcceptOutcome::Accepted => {
                if !self.accepting {
                    return Action::Refuse;
                }
                proof {
                    lemma_nothing_is_incomplete();
                }
                match self.connections.insert() {
                    Some(token) => Action::Register(token),
                    None => Action::Refuse,
                }
            },
        }
    }
}

/// The connections share one store: what one connection has set, another
/// reads. After a `set` completed on the connection `a`, a `get` for the same
/// key that completes on the connection `b` is answered with the value set.
pub proof fn law_store_is_shared(
    server: ServerView,
    a: usize,
    b: usize,
    set: ReadView,
    get: ReadView,
    key: Seq<char>,
    value: Seq<char>,
    set_rest: Seq<char>,
    get_rest: Seq<char>,
)
    requires
        a != LISTENER,
        b != LISTENER,
        a != b,
        server.connections.contains_key(a),
        server.connections.contains_key(b),
        server.connections[a].read_request(set) == Some(set_of(key, set_rest, value)),
        server.connections[b].read_request(get) == Some(get_of(key, get_rest)),
    ensures
        server.served(a, EventView::Read(set)).served(b, EventView::Read(get)).connections[b]
            == StateView::Writing(encode_utf8(value), 0),
        server.served(a, EventView::Read(set)).answer(b, EventView::Read(get)) == Action::Rearm(
            b,
            Interest::Writable,
        ),
{
}

/// No response before a request: an event that completes no request on a
/// connection that reads leaves the store as it was, and the connection does
/// not write after it.
pub proof fn law_no_response_without_request(server: ServerView, token: usize, event: EventView)
    requires
        token != LISTENER,
        server.connections.contains_key(token),
        server.connections[token] is Reading,
        completed(server.connections[token], event) is None,
    ensures
        server.served(token, event).storage == server.storage,
        server.served(token, event).connections.contains_key(token) ==> server.served(
            token,
            event,
        ).connections[token] is Reading,
{
}

/// A peer that closes is forgotten: when a read on a connection that reads
/// shows the end of the stream or fails, the connection leaves the table and
/// its socket is to be released. The store and the other connections stay.
pub proof fn law_end_of_stream_removes(server: ServerView, token: usize, outcome: ReadView)
    requires
        token != LISTENER,
        server.connections.contains_key(token),
        server.connections[token] is Reading,
        outcome.over(),
    ensures
        server.served(token, EventView::Read(outcome)) == (ServerView {
            connections: server.connections.remove(token),
            ..server
        }),
        server.answer(token, EventView::Read(outcome)) == Action::Close(token),
{
}

/// A connection is armed for what its state waits for, and for nothing else:
/// after an event it is either gone from the table and to be closed, or it is
/// in the table and to be armed for the interest of its new state.
pub proof fn law_rearmed_as_state(server: ServerView, token: usize, event: EventView)
    requires
        token != LISTENER,
        server.connections.contains_key(token),
        !(event is Accept),
    ensures
        match server.answer(token, event) {
            Action::Close(t) => t == token && !server.served(token, event).connections.contains_key(
                token,
            ),
            Action::Rearm(t, interest) => {
                &&& t == token
                &&& server.served(token, event).connections.contains_key(token)
                &&& interest == server.served(token, event).connections[token].interest()
                &&& interest != Interest::Nothing
            },
            _ => false,
        },
{
}

impl ServerView {
    /// The reactor with the connection `token` in the state `state`.
    pub open spec fn with(self, token: usize, state: StateView) -> ServerView {
        ServerView { connections: self.connections.insert(token, state), ..self }
    }

    /// The reactor after the connection `token` has read several pieces, one
    /// at a time.
    pub open spec fn fed(self, token: usize, pieces: Seq<Seq<u8>>) -> ServerView
        decreases pieces.len(),
    {
        if pieces.len() == 0 {
            self
        } else {
            self.fed(token, pieces.drop_last()).served(
                token,
                EventView::Read(ReadView::Data(pieces.last())),
            )
        }
    }
}

/// While less than a whole request has come, the connection buffers what it
/// reads, and nothing else changes.
proof fn lemma_fed_buffers(
    server: ServerView,
    token: usize,
    request: RequestView,
    pieces: Seq<Seq<u8>>,
    k: int,
)
    requires
        token != LISTENER,
        server.connections.contains_key(token),
        server.connections[token] == StateView::Reading(Seq::empty()),
        well_formed(request),
        joined(pieces) == frame(request),
        forall|i: int| 0 <= i < pieces.len() ==> (#[trigger] pieces[i]).len() > 0,
        0 <= k < pieces.len(),
    ensures
        server.fed(token, pieces.take(k)) == server.with(
            token,
            StateView::Reading(joined(pieces.take(k))),
        ),
    decreases k,
{
    if k == 0 {
        assert(server.connections.insert(token, server.connections[token])
            =~= server.connections);
    } else {
        lemma_fed_buffers(server, token, request, pieces, k - 1);
        lemma_fed_prefix(request, pieces, k - 1);
        lemma_fed_prefix(request, pieces, k);
        assert(pieces.take(k).drop_last() =~= pieces.take(k - 1));
        assert(pieces.take(k).last() == pieces[k - 1]);
        let before = server.with(token, StateView::Reading(joined(pieces.take(k - 1))));
        let after = before.served(token, EventView::Read(ReadView::Data(pieces[k - 1])));
        assert(after.connections =~= server.with(
            token,
            StateView::Reading(joined(pieces.take(k))),
        ).connections);
    }
}

/// A request that is read in pieces is served as the request read whole:
/// the store ends up the same, and so does the connection, which writes the
/// same response.
pub proof fn law_pieces_served_as_whole(
    server: ServerView,
    token: usize,
    request: RequestView,
    pieces: Seq<Seq<u8>>,
)
    requires
        token != LISTENER,
        server.connections.contains_key(token),
        server.connections[token] == StateView::Reading(Seq::empty()),
        well_formed(request),
        joined(pieces) == frame(request),
        forall|i: int| 0 <= i < pieces.len() ==> (#[trigger] pieces[i]).len() > 0,
    ensures
        server.fed(token, pieces) == server.served(
            token,
            EventView::Read(ReadView::Data(frame(request))),
        ),
        server.fed(token, pieces) == (ServerView {
            connections: server.connections.insert(
                token,
                StateView::Writing(respond(server.storage, request), 0),
            ),
            storage: apply(server.storage, request),
            accepting: server.accepting,
        }),
{
    let whole = frame(request);
    law_decode_frame(request, Seq::empty());
    assert(whole + Seq::<u8>::empty() =~= whole);
    assert(Seq::<u8>::empty() + whole =~= whole);
    assert(whole.len() > 0);
    let served = ServerView {
        connections: server.connections.insert(
            token,
            StateView::Writing(respond(server.storage, request), 0),
        ),
        storage: apply(server.storage, request),
        accepting: server.accepting,
    };
    assert(server.served(token, EventView::Read(ReadView::Data(whole))) == served);
    let last: int = pieces.len() - 1;
    lemma_fed_buffers(server, token, request, pieces, last);
    lemma_fed_prefix(request, pieces, last);
    assert(pieces.take(last) =~= pieces.drop_last());
    assert(pieces.take(last + 1) =~= pieces);
    let before = server.with(token, StateView::Reading(joined(pieces.drop_last())));
    let after = before.served(token, EventView::Read(ReadView::Data(pieces.last())));
    assert(after.connections =~= served.connections);
}

} // verus!
