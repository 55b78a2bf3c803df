//! The server's side: bind, listen, serve one session at a time, stop when
//! asked to.
//!
//! The engine does no I/O. The shell binds, accepts, reads and writes, reports
//! each outcome as an event, and is told what to do next. Stopping is
//! cooperative: a request to stop takes effect between sessions, and a session
//! that is under way when it arrives is allowed to finish.

use crate::address::Address;
use crate::error::{ProtocolError, SessionError};
use crate::frame::{
    encode_frame, entries_view, frame_bytes, lemma_frame_round_trip, parse_frame, FileEntry,
    FileEntryView,
};
use crate::path::{contained, resolve_path, texts_bytes};
use crate::request::{decode_request, parse_request, Request, RequestView};
use vstd::prelude::*;
use vstd::utf8::*;

verus! {

/// How far a session has come.
#[derive(Clone, Copy, Debug, PartialEq, Eq, Structural)]
pub enum SessionStage {
    /// The connection is accepted and its request has not been read.
    AwaitingRequest,
    /// The request was an upload: files are coming in.
    Receiving,
    /// The request was a `Get` for a contained path: files are to go out.
    Sending,
    /// Nothing more is moved: the connection is to be closed.
    Closing,
}

/// How far a server has come.
#[derive(Clone, Copy, Debug, PartialEq, Eq, Structural)]
pub enum ServerPhase {
    /// No listening endpoint.
    Unbound,
    /// The endpoint is bound and the accept loop has not been entered.
    Bound,
    /// Waiting for the next connection or for the request to stop.
    Listening,
    /// A session is under way.
    Serving(SessionStage),
    /// The accept loop has been left.
    Stopped,
}

/// What has happened outside since the server last asked for something.
#[derive(Debug, PartialEq, Eq)]
pub enum ServerEvent {
    /// The listening endpoint has been bound at the server's address.
    Bound,
    /// The address or port cannot be used.
    BindFailed,
    /// The served directory does not exist or is no directory.
    RootInvalid,
    /// The accept loop is to be entered.
    Start,
    /// A connection has been accepted.
    Accepted,
    /// Accepting a connection has failed.
    AcceptFailed,
    /// These are the first bytes on the accepted connection.
    RequestRead(Vec<u8>),
    /// Nothing exists at the place that was to be sent.
    PathMissing,
    /// The session is over, well or not, and its connection is closed.
    SessionEnded,
    /// The cancellation signal has fired.
    StopRequested,
}

/// An event as a mathematical value.
pub enum ServerEventView {
    Bound,
    BindFailed,
    RootInvalid,
    Start,
    Accepted,
    AcceptFailed,
    RequestRead(Seq<u8>),
    PathMissing,
    SessionEnded,
    StopRequested,
}

impl View for ServerEvent {
    type V = ServerEventView;

    open spec fn view(&self) -> ServerEventView {
        match self {
            ServerEvent::Bound => ServerEventView::Bound,
            ServerEvent::BindFailed => ServerEventView::BindFailed,
            ServerEvent::RootInvalid => ServerEventView::RootInvalid,
            ServerEvent::Start => ServerEventView::Start,
            ServerEvent::Accepted => ServerEventView::Accepted,
            ServerEvent::AcceptFailed => ServerEventView::AcceptFailed,
            ServerEvent::RequestRead(bytes) => ServerEventView::RequestRead(bytes@),
            ServerEvent::PathMissing => ServerEventView::PathMissing,
            ServerEvent::SessionEnded => ServerEventView::SessionEnded,
            ServerEvent::StopRequested => ServerEventView::StopRequested,
        }
    }
}

/// What the shell is to do next.
#[derive(Debug, PartialEq, Eq)]
pub enum ServerAction {
    /// Nothing: the event changed no duty of the shell.
    Nothing,
    /// Wait for the next connection and for the cancellation signal, whichever
    /// comes first.
    AwaitConnection,
    /// Read the request from the accepted connection.
    ReadRequest,
    /// Receive a transfer from the client and materialize it under the served
    /// directory, at the places that `plan_writes` allows.
    ReceiveUpload,
    /// Stream the file or subtree that these names lead to, below the served
    /// directory, to the client; if nothing exists there, report `PathMissing`
    /// instead.
    SendPath(Vec<String>),
    /// Write these bytes to the client and close the connection.
    SendFrame(Vec<u8>),
    /// Close the connection without touching the file system.
    Reject(SessionError),
    /// Leave the accept loop.
    Shutdown,
    /// Give up: the server cannot run.
    Fail(SessionError),
}

/// An action as a mathematical value.
pub enum ServerActionView {
    Nothing,
    AwaitConnection,
    ReadRequest,
    ReceiveUpload,
    SendPath(Seq<Seq<u8>>),
    SendFrame(Seq<u8>),
    Reject(SessionError),
    Shutdown,
    Fail(SessionError),
}

impl View for ServerAction {
    type V = ServerActionView;

    open spec fn view(&self) -> ServerActionView {
        match self {
            ServerAction::Nothing => ServerActionView::Nothing,
            ServerAction::AwaitConnection => ServerActionView::AwaitConnection,
            ServerAction::ReadRequest => ServerActionView::ReadRequest,
            ServerAction::ReceiveUpload => ServerActionView::ReceiveUpload,
            ServerAction::SendPath(names) => ServerActionView::SendPath(texts_bytes(names@)),
            ServerAction::SendFrame(bytes) => ServerActionView::SendFrame(bytes@),
            ServerAction::Reject(fault) => ServerActionView::Reject(*fault),
            ServerAction::Shutdown => ServerActionView::Shutdown,
            ServerAction::Fail(fault) => ServerActionView::Fail(*fault),
        }
    }
}

impl ServerActionView {
    /// Whether the action lets the shell read or write files.
    pub open spec fn touches_files(self) -> bool {
        self is ReceiveUpload || self is SendPath
    }

    /// The stage a session is at once its request has been answered with this
    /// action.
    pub open spec fn stage(self) -> SessionStage {
        match self {
            ServerActionView::ReceiveUpload => SessionStage::Receiving,
            ServerActionView::SendPath(_) => SessionStage::Sending,
            _ => SessionStage::Closing,
        }
    }
}

/// The answer to a `Get` for a place where nothing exists: the frame of a
/// transfer of no files.
pub open spec fn nothing_there() -> Seq<u8> {
    frame_bytes(Seq::<FileEntryView>::empty())
}

/// A server as a mathematical value.
pub struct ServerView {
    /// Where the server listens.
    pub address: Address,
    /// The served directory.
    pub root: Seq<char>,
    /// The length of the buffer that file bytes are moved with.
    pub buffer_size: nat,
    pub phase: ServerPhase,
    /// Whether the cancellation signal has fired during the present session.
    pub stop_pending: bool,
}

/// The answer to the first bytes of a session: what they ask for, if they are
/// a request and ask for something inside the served directory.
pub open spec fn dispatched(bytes: Seq<u8>) -> ServerActionView {
    match parse_request(bytes) {
        Err(fault) => ServerActionView::Reject(SessionError::Protocol(fault)),
        Ok((RequestView::Upload, _)) => ServerActionView::ReceiveUpload,
        Ok((RequestView::Get(path), _)) => match contained(encode_utf8(path)) {
            Some(names) => ServerActionView::SendPath(names),
            None => ServerActionView::Reject(SessionError::PathEscape),
        },
    }
}

impl ServerView {
    /// This server in another phase.
    pub open spec fn in_phase(self, phase: ServerPhase) -> ServerView {
        ServerView { phase, ..self }
    }

    /// The server after `event`, and what the shell is to do. An event that
    /// does not belong to the present phase changes nothing.
    pub open spec fn after(self, event: ServerEventView) -> (ServerView, ServerActionView) {
        match (self.phase, event) {
            (ServerPhase::Unbound, ServerEventView::Bound) => (
                self.in_phase(ServerPhase::Bound),
                ServerActionView::Nothing,
            ),
            (ServerPhase::Unbound, ServerEventView::BindFailed) => (
                self,
                ServerActionView::Fail(SessionError::Bind),
            ),
            (ServerPhase::Unbound, ServerEventView::RootInvalid) => (
                self,
                ServerActionView::Fail(SessionError::Io),
            ),
            (ServerPhase::Bound, ServerEventView::Start) => (
                self.in_phase(ServerPhase::Listening),
                ServerActionView::AwaitConnection,
            ),
            (ServerPhase::Listening, ServerEventView::Accepted) => (
                self.in_phase(ServerPhase::Serving(SessionStage::AwaitingRequest)),
                ServerActionView::ReadRequest,
            ),
            (ServerPhase::Listening, ServerEventView::AcceptFailed) => (
                self,
                ServerActionView::AwaitConnection,
            ),
            (ServerPhase::Listening, ServerEventView::StopRequested) => (
                self.in_phase(ServerPhase::Stopped),
                ServerActionView::Shutdown,
            ),
            (
                ServerPhase::Serving(SessionStage::AwaitingRequest),
                ServerEventView::RequestRead(bytes),
            ) => (
                self.in_phase(ServerPhase::Serving(dispatched(bytes).stage())),
                dispatched(bytes),
            ),
            (ServerPhase::Serving(SessionStage::Sending), ServerEventView::PathMissing) => (
                self.in_phase(ServerPhase::Serving(SessionStage::Closing)),
                ServerActionView::SendFrame(nothing_there()),
            ),
            (ServerPhase::Serving(_), ServerEventView::StopRequested) => (
                ServerView { stop_pending: true, ..self },
                ServerActionView::Nothing,
            ),
            (ServerPhase::Serving(_), ServerEventView::SessionEnded) => if self.stop_pending {
                (
                    ServerView { phase: ServerPhase::Stopped, stop_pending: false, ..self },
                    ServerActionView::Shutdown,
                )
            } else {
                (self.in_phase(ServerPhase::Listening), ServerActionView::AwaitConnection)
            },
            _ => (self, ServerActionView::Nothing),
        }
    }
}

/// A request to stop that arrives between sessions ends the accept loop at
/// once: the server is stopped after that one event and the shell is told to
/// leave the loop.
pub proof fn lemma_stop_between_sessions(server: ServerView)
    requires
        server.phase is Listening,
    ensures
        server.after(ServerEventView::StopRequested) == (
            server.in_phase(ServerPhase::Stopped),
            ServerActionView::Shutdown,
        ),
{
}

/// A request to stop that arrives during a session does not touch the session:
/// the server goes on serving at the stage it was at, and whatever the session
/// still does is answered as if no stop had been asked for. When the session
/// ends, the accept loop is left instead of entered again.
pub proof fn lemma_stop_spares_session(server: ServerView, stage: SessionStage, bytes: Seq<u8>)
    requires
        server.phase == ServerPhase::Serving(stage),
    ensures
        ({
            let asked = server.after(ServerEventView::StopRequested);
            &&& asked.1 == ServerActionView::Nothing
            &&& asked.0 == ServerView { stop_pending: true, ..server }
            &&& asked.0.after(ServerEventView::RequestRead(bytes)).1 == server.after(
                ServerEventView::RequestRead(bytes),
            ).1
            &&& asked.0.after(ServerEventView::SessionEnded).0.phase == ServerPhase::Stopped
            &&& asked.0.after(ServerEventView::SessionEnded).1 == ServerActionView::Shutdown
        }),
{
}

/// A session that fails or ends does not end the server: unless it was asked
/// to stop, it listens again.
pub proof fn lemma_session_end_resumes_listening(server: ServerView)
    requires
        server.phase is Serving,
        !server.stop_pending,
    ensures
        server.after(ServerEventView::SessionEnded) == (
            server.in_phase(ServerPhase::Listening),
            ServerActionView::AwaitConnection,
        ),
{
}

/// A `Get` for a contained path at which nothing exists is answered with a
/// transfer of no files: no payload goes out, the shell is let at no file, and
/// when the connection is closed the server listens again.
pub proof fn lemma_missing_path_sends_nothing(server: ServerView)
    requires
        server.phase == ServerPhase::Serving(SessionStage::Sending),
        !server.stop_pending,
    ensures
        ({
            let answered = server.after(ServerEventView::PathMissing);
            &&& answered.1 == ServerActionView::SendFrame(nothing_there())
            &&& !answered.1.touches_files()
            &&& answered.0 == server.in_phase(ServerPhase::Serving(SessionStage::Closing))
            &&& answered.0.after(ServerEventView::SessionEnded) == (
                server.in_phase(ServerPhase::Listening),
                ServerActionView::AwaitConnection,
            )
        }),
        parse_frame(nothing_there()) == Ok::<(Seq<FileEntryView>, nat), ProtocolError>(
            (Seq::empty(), nothing_there().len()),
        ),
        nothing_there().len() == 8,
{
    let none = Seq::<FileEntryView>::empty();
    reveal_with_fuel(crate::wire::pow256, 9);
    lemma_frame_round_trip(none, Seq::empty());
    assert(frame_bytes(none) + Seq::<u8>::empty() =~= frame_bytes(none));
    crate::wire::lemma_le_bytes_len(0, 8);
    assert(crate::frame::entries_bytes(none) =~= Seq::<u8>::empty());
}

/// A stopped server stays stopped.
pub proof fn lemma_stopped_is_final(server: ServerView, event: ServerEventView)
    requires
        server.phase is Stopped,
    ensures
        server.after(event) == (server, ServerActionView::Nothing),
{
}

/// A `Get` whose path escapes the served directory is rejected as an escape,
/// and the rejection lets the shell touch no file. What a `Get` is answered
/// with otherwise are names only, which cannot lead out of the directory.
pub proof fn lemma_get_is_contained(path: Seq<char>, rest: Seq<u8>)
    requires
        RequestView::Get(path).fits(),
    ensures
        contained(encode_utf8(path)) is None ==> dispatched(
            crate::request::request_bytes(RequestView::Get(path)) + rest,
        ) == ServerActionView::Reject(SessionError::PathEscape),
        contained(encode_utf8(path)) matches Some(names) ==> dispatched(
            crate::request::request_bytes(RequestView::Get(path)) + rest,
        ) == ServerActionView::SendPath(names) && forall|k: int|
            0 <= k < names.len() ==> crate::path::is_name(#[trigger] names[k]),
        !ServerActionView::Reject(SessionError::PathEscape).touches_files(),
{
    crate::request::lemma_request_round_trip(RequestView::Get(path), rest);
    crate::path::lemma_contained_names(encode_utf8(path));
}

/// A `Get` for an absolute path that names anything is rejected as an escape,
/// whatever it names: such a path is not opened for sending. `/` by itself
/// asks for the served directory.
pub proof fn lemma_absolute_get_is_rejected(path: Seq<char>, rest: Seq<u8>)
    requires
        RequestView::Get(path).fits(),
        crate::path::is_absolute(encode_utf8(path)),
    ensures
        ({
            let answer = dispatched(crate::request::request_bytes(RequestView::Get(path)) + rest);
            if crate::path::names_anything(crate::path::segments_of(encode_utf8(path))) {
                answer == ServerActionView::Reject(SessionError::PathEscape)
            } else {
                answer == ServerActionView::SendPath(Seq::empty())
            }
        }),
{
    crate::request::lemma_request_round_trip(RequestView::Get(path), rest);
    crate::path::lemma_absolute_is_refused(encode_utf8(path));
}

/// Answers the first bytes of a session.
pub fn dispatch(bytes: &[u8]) -> (action: ServerAction)
    ensures
        action@ == dispatched(bytes@),
{
    match decode_request(bytes) {
        Err(fault) => ServerAction::Reject(SessionError::Protocol(fault)),
        Ok((Request::Upload, _)) => ServerAction::ReceiveUpload,
        Ok((Request::Get(path), _)) => match resolve_path(path.as_str()) {
            Ok(names) => ServerAction::SendPath(names),
            Err(_) => ServerAction::Reject(SessionError::PathEscape),
        },
    }
}

/// A server bound to a directory, an address and a buffer size.
pub struct Server {
    address: Address,
    root: String,
    buffer_size: usize,
    phase: ServerPhase,
    stop_pending: bool,
}

impl View for Server {
    type V = ServerView;

    closed spec fn view(&self) -> ServerView {
        ServerView {
            address: self.address,
            root: self.root@,
            buffer_size: self.buffer_size as nat,
            phase: self.phase,
            stop_pending: self.stop_pending,
        }
    }
}

impl Server {
    /// A server that is to listen at `address` and serve the directory `root`,
    /// moving file bytes with a buffer of `buffer_size` bytes. It is not bound
    /// yet: the shell checks the directory, binds the endpoint and reports
    /// `Bound`, `BindFailed` or `RootInvalid`.
    pub fn new(address: Address, root: &str, buffer_size: usize) -> (server: Server)
        ensures
            server@ == (ServerView {
                address,
                root: root@,
                buffer_size: buffer_size as nat,
                phase: ServerPhase::Unbound,
                stop_pending: false,
            }),
    {
        Server {
            address,
            root: root.to_owned(),
            buffer_size,
            phase: ServerPhase::Unbound,
            stop_pending: false,
        }
    }

    /// Where the server listens.
    pub fn address(&self) -> (address: Address)
        ensures
            address == self@.address,
    {
        self.address
    }

    /// The served directory.
    pub fn root(&self) -> (root: &str)
        ensures
            root@ == self@.root,
    {
        self.root.as_str()
    }

    /// The length of the buffer that file bytes are moved with.
    pub fn buffer_size(&self) -> (size: usize)
        ensures
            size == self@.buffer_size,
    {
        self.buffer_size
    }

    /// The phase the server is in.
    pub fn phase(&self) -> (phase: ServerPhase)
        ensures
            phase == self@.phase,
    {
        self.phase
    }

    /// Whether a request to stop is waiting for the present session to end.
    pub fn stop_pending(&self) -> (pending: bool)
        ensures
            pending == self@.stop_pending,
    {
        self.stop_pending
    }

    /// Takes in `event` and tells what is to be done next.
    pub fn step(&mut self, event: ServerEvent) -> (action: ServerAction)
        ensures
            (final(self)@, action@) == old(self)@.after(event@),
    {
        match (self.phase, event) {
            (ServerPhase::Unbound, ServerEvent::Bound) => {
                self.phase = ServerPhase::Bound;
                ServerAction::Nothing
            },
            (ServerPhase::Unbound, ServerEvent::BindFailed) => ServerAction::Fail(
                SessionError::Bind,
            ),
            (ServerPhase::Unbound, ServerEvent::RootInvalid) => ServerAction::Fail(
                SessionError::Io,
            ),
            (ServerPhase::Bound, ServerEvent::Start) => {
                self.phase = ServerPhase::Listening;
                ServerAction::AwaitConnection
            },
            (ServerPhase::Listening, ServerEvent::Accepted) => {
                self.phase = ServerPhase::Serving(SessionStage::AwaitingRequest);
                ServerAction::ReadRequest
            },
            (ServerPhase::Listening, ServerEvent::AcceptFailed) => ServerAction::AwaitConnection,
            (ServerPhase::Listening, ServerEvent::StopRequested) => {
                self.phase = ServerPhase::Stopped;
                ServerAction::Shutdown
            },
            (
                ServerPhase::Serving(SessionStage::AwaitingRequest),
                ServerEvent::RequestRead(bytes),
            ) => {
                let action = dispatch(bytes.as_slice());
                let stage = match &action {
                    ServerAction::ReceiveUpload => SessionStage::Receiving,
                    ServerAction::SendPath(_) => SessionStage::Sending,
                    _ => SessionStage::Closing,
                };
                self.phase = ServerPhase::Serving(stage);
                action
            },
            (ServerPhase::Serving(SessionStage::Sending), ServerEvent::PathMissing) => {
                self.phase = ServerPhase::Serving(SessionStage::Closing);
                let none: Vec<FileEntry> = Vec::new();
                let frame = encode_frame(&none);
                proof {
                    assert(entries_view(none@) =~= Seq::<FileEntryView>::empty());
                }
                ServerAction::SendFrame(frame)
            },
            (ServerPhase::Serving(_), ServerEvent::StopRequested) => {
                self.stop_pending = true;
                ServerAction::Nothing
            },
            (ServerPhase::Serving(_), ServerEvent::SessionEnded) => {
                if self.stop_pending {
                    self.phase = ServerPhase::Stopped;
                    self.stop_pending = false;
                    ServerAction::Shutdown
                } else {
                    self.phase = ServerPhase::Listening;
                    ServerAction::AwaitConnection
                }
            },
            _ => ServerAction::Nothing,
        }
    }
}

} // verus!
