//! The client's side of a session: connect, send one request, then send or
//! receive the files that the request announced.
//!
//! The engine does no I/O. Each operation either refuses, changing nothing and
//! asking for nothing, or tells the shell what to do on the connection; the
//! shell reports how that went with `connected`, `finish` or `fail`.

use crate::address::Address;
use crate::error::{ProtocolError, SessionError};
use crate::request::{encode_request, parse_request, request_bytes, Request, RequestView};
use vstd::prelude::*;

verus! {

/// What the request of the present session announced.
#[derive(Clone, Copy, Debug, PartialEq, Eq, Structural)]
pub enum Intent {
    /// Files go to the server.
    Upload,
    /// Files come from the server.
    Download,
}

/// How far a client has come.
#[derive(Clone, Copy, Debug, PartialEq, Eq, Structural)]
pub enum ClientPhase {
    /// No connection is held.
    Unconnected,
    /// A connection is held and no request has been sent on it.
    Connected,
    /// The request of this session has been sent.
    RequestSent(Intent),
    /// Files are on their way.
    Transferring(Intent),
    /// The session has ended well. The connection is still held.
    Done,
    /// The session has been given up. The connection is gone.
    Failed,
}

/// What the shell is to do with the connection after `send` or `download`.
#[derive(Debug, PartialEq, Eq)]
pub enum TransferJob {
    /// Read the file or subtree at this local path and stream it to the server.
    Send(String),
    /// Read the incoming transfer and materialize its files under this local
    /// directory, keeping the relative paths that the server sent, at the
    /// places that `plan_writes` allows.
    Receive(String),
}

/// A transfer job as a mathematical value.
pub enum TransferJobView {
    Send(Seq<char>),
    Receive(Seq<char>),
}

impl View for TransferJob {
    type V = TransferJobView;

    open spec fn view(&self) -> TransferJobView {
        match self {
            TransferJob::Send(path) => TransferJobView::Send(path@),
            TransferJob::Receive(path) => TransferJobView::Receive(path@),
        }
    }
}

/// A client as a mathematical value.
pub struct ClientView {
    /// The local working directory.
    pub local_path: Seq<char>,
    /// The server this client talks to.
    pub server: Address,
    pub phase: ClientPhase,
}

/// What a request announces.
pub open spec fn intent_of(request: RequestView) -> Intent {
    match request {
        RequestView::Get(_) => Intent::Download,
        RequestView::Upload => Intent::Upload,
    }
}

impl ClientView {
    /// Whether a connection may be opened now: whenever no session is under
    /// way. A client that holds a connection may open a new one in its place.
    pub open spec fn may_connect(self) -> bool {
        !(self.phase is RequestSent || self.phase is Transferring)
    }

    /// Whether a request may be sent now: on a connection that carries no
    /// session.
    pub open spec fn may_request(self) -> bool {
        self.phase is Connected || self.phase is Done
    }

    /// Whether a connection is held.
    pub open spec fn holds_connection(self) -> bool {
        !(self.phase is Unconnected || self.phase is Failed)
    }

    /// This client in another phase.
    pub open spec fn in_phase(self, phase: ClientPhase) -> ClientView {
        ClientView { phase, ..self }
    }

    /// The client after the shell has tried to connect. A new connection
    /// begins with no request sent on it. A failed attempt leaves a connection
    /// that was held as it was, and a client without one unconnected.
    pub open spec fn after_connected(self, reached: bool) -> (ClientView, Result<
        (),
        SessionError,
    >) {
        if !self.may_connect() {
            (self, Err(SessionError::InvalidState))
        } else if reached {
            (self.in_phase(ClientPhase::Connected), Ok(()))
        } else if self.holds_connection() {
            (self, Err(SessionError::Connect))
        } else {
            (self.in_phase(ClientPhase::Unconnected), Err(SessionError::Connect))
        }
    }

    /// The client after `send_request`, and the frame to write.
    pub open spec fn after_send_request(self, request: RequestView) -> (ClientView, Result<
        Seq<u8>,
        SessionError,
    >) {
        if self.may_request() {
            (
                self.in_phase(ClientPhase::RequestSent(intent_of(request))),
                Ok(request_bytes(request)),
            )
        } else {
            (self, Err(SessionError::InvalidState))
        }
    }

    /// The client after `send`, and the job to do.
    pub open spec fn after_send(self, path: Seq<char>) -> (ClientView, Result<
        TransferJobView,
        SessionError,
    >) {
        if self.phase == ClientPhase::RequestSent(Intent::Upload) {
            (
                self.in_phase(ClientPhase::Transferring(Intent::Upload)),
                Ok(TransferJobView::Send(path)),
            )
        } else {
            (self, Err(SessionError::InvalidState))
        }
    }

    /// The client after `download`, and the job to do.
    pub open spec fn after_download(self) -> (ClientView, Result<TransferJobView, SessionError>) {
        if self.phase == ClientPhase::RequestSent(Intent::Download) {
            (
                self.in_phase(ClientPhase::Transferring(Intent::Download)),
                Ok(TransferJobView::Receive(self.local_path)),
            )
        } else {
            (self, Err(SessionError::InvalidState))
        }
    }

    /// The client after the shell has reported the end of the transfer.
    pub open spec fn after_finish(self) -> (ClientView, Result<(), SessionError>) {
        if self.phase is Transferring {
            (self.in_phase(ClientPhase::Done), Ok(()))
        } else {
            (self, Err(SessionError::InvalidState))
        }
    }

    /// The client after the shell has reported that the connection failed it.
    pub open spec fn after_fail(self) -> ClientView {
        if self.holds_connection() {
            self.in_phase(ClientPhase::Failed)
        } else {
            self
        }
    }
}

/// On a fresh connection a request is accepted, and after it exactly the
/// transfer that it announced: `send` after `Upload`, `download` after `Get`.
pub proof fn lemma_request_then_transfer(client: ClientView, request: RequestView, path: Seq<char>)
    requires
        client.phase is Connected,
    ensures
        client.after_send_request(request).1 is Ok,
        request is Upload ==> client.after_send_request(request).0.after_send(path).1
            == Ok::<TransferJobView, SessionError>(TransferJobView::Send(path)),
        request is Upload ==> client.after_send_request(request).0.after_download().1 is Err,
        request is Get ==> client.after_send_request(request).0.after_download().1 == Ok::<
            TransferJobView,
            SessionError,
        >(TransferJobView::Receive(client.local_path)),
        request is Get ==> client.after_send_request(request).0.after_send(path).1 is Err,
{
}

/// Without a request sent in this session, `send` and `download` are refused:
/// they report an invalid state, leave the client as it was and ask for no
/// I/O.
pub proof fn lemma_transfer_needs_request(client: ClientView, path: Seq<char>)
    requires
        !(client.phase is RequestSent),
    ensures
        client.after_send(path) == (
            client,
            Err::<TransferJobView, SessionError>(SessionError::InvalidState),
        ),
        client.after_download() == (
            client,
            Err::<TransferJobView, SessionError>(SessionError::InvalidState),
        ),
{
}

/// A request is sent once per session: while one is under way, a second is
/// refused.
pub proof fn lemma_one_request_per_session(client: ClientView, request: RequestView)
    requires
        client.phase is RequestSent || client.phase is Transferring,
    ensures
        client.after_send_request(request) == (
            client,
            Err::<Seq<u8>, SessionError>(SessionError::InvalidState),
        ),
{
}

/// A client bound to a local working directory and to a server.
pub struct Client {
    local_path: String,
    server: Address,
    phase: ClientPhase,
}

impl View for Client {
    type V = ClientView;

    closed spec fn view(&self) -> ClientView {
        ClientView { local_path: self.local_path@, server: self.server, phase: self.phase }
    }
}

impl Client {
    /// A client that holds no connection.
    pub fn new(local_path: &str, server: Address) -> (client: Client)
        ensures
            client@ == (ClientView {
                local_path: local_path@,
                server,
                phase: ClientPhase::Unconnected,
            }),
    {
        Client { local_path: local_path.to_owned(), server, phase: ClientPhase::Unconnected }
    }

    /// The phase the client is in.
    pub fn phase(&self) -> (phase: ClientPhase)
        ensures
            phase == self@.phase,
    {
        self.phase
    }

    /// The server this client talks to.
    pub fn server(&self) -> (server: Address)
        ensures
            server == self@.server,
    {
        self.server
    }

    /// The local working directory.
    pub fn local_path(&self) -> (path: &str)
        ensures
            path@ == self@.local_path,
    {
        self.local_path.as_str()
    }

    /// Asks to open the connection: the address to connect to, or a refusal
    /// while a session is under way. The client changes only when the shell
    /// reports the outcome with `connected`.
    pub fn connect(&self) -> (target: Result<Address, SessionError>)
        ensures
            self@.may_connect() ==> target == Ok::<Address, SessionError>(self@.server),
            !self@.may_connect() ==> target == Err::<Address, SessionError>(
                SessionError::InvalidState,
            ),
    {
        match self.phase {
            ClientPhase::RequestSent(_) | ClientPhase::Transferring(_) => Err(
                SessionError::InvalidState,
            ),
            _ => Ok(self.server),
        }
    }

    /// Takes in whether the connection could be opened. If not, the client
    /// is left with the connection it had, if any, and the attempt may be
    /// repeated.
    pub fn connected(&mut self, reached: bool) -> (outcome: Result<(), SessionError>)
        ensures
            (final(self)@, outcome) == old(self)@.after_connected(reached),
    {
        match self.phase {
            ClientPhase::RequestSent(_) | ClientPhase::Transferring(_) => Err(
                SessionError::InvalidState,
            ),
            ClientPhase::Connected | ClientPhase::Done => {
                if reached {
                    self.phase = ClientPhase::Connected;
                    Ok(())
                } else {
                    Err(SessionError::Connect)
                }
            },
            ClientPhase::Unconnected | ClientPhase::Failed => {
                if reached {
                    self.phase = ClientPhase::Connected;
                    Ok(())
                } else {
                    self.phase = ClientPhase::Unconnected;
                    Err(SessionError::Connect)
                }
            },
        }
    }

    /// Begins a session: the frame of `request`, which the shell is to write
    /// to the connection. Refused unless a connection is held that carries no
    /// session.
    pub fn send_request(&mut self, request: &Request) -> (frame: Result<Vec<u8>, SessionError>)
        ensures
            final(self)@ == old(self)@.after_send_request(request@).0,
            match old(self)@.after_send_request(request@).1 {
                Ok(bytes) => frame matches Ok(got) && got@ == bytes && parse_request(got@) == Ok::<
                    (RequestView, nat),
                    ProtocolError,
                >((request@, got@.len())),
                Err(fault) => frame matches Err(got) && got == fault,
            },
    {
        match self.phase {
            ClientPhase::Connected | ClientPhase::Done => {
                let intent = match request {
                    Request::Get(_) => Intent::Download,
                    Request::Upload => Intent::Upload,
                };
                self.phase = ClientPhase::RequestSent(intent);
                Ok(encode_request(request))
            },
            _ => Err(SessionError::InvalidState),
        }
    }

    /// Begins the upload that the request announced: the shell is to stream
    /// the file or subtree at `path`. Refused, with nothing changed, unless
    /// the request of this session was an `Upload`.
    pub fn send(&mut self, path: &str) -> (job: Result<TransferJob, SessionError>)
        ensures
            final(self)@ == old(self)@.after_send(path@).0,
            match old(self)@.after_send(path@).1 {
                Ok(todo) => job matches Ok(got) && got@ == todo,
                Err(fault) => job matches Err(got) && got == fault,
            },
    {
        match self.phase {
            ClientPhase::RequestSent(Intent::Upload) => {
                self.phase = ClientPhase::Transferring(Intent::Upload);
                Ok(TransferJob::Send(path.to_owned()))
            },
            _ => Err(SessionError::InvalidState),
        }
    }

    /// Begins the download that the request announced: the shell is to
    /// receive into the local working directory. Refused, with nothing
    /// changed, unless the request of this session was a `Get`.
    pub fn download(&mut self) -> (job: Result<TransferJob, SessionError>)
        ensures
            final(self)@ == old(self)@.after_download().0,
            match old(self)@.after_download().1 {
                Ok(todo) => job matches Ok(got) && got@ == todo,
                Err(fault) => job matches Err(got) && got == fault,
            },
    {
        match self.phase {
            ClientPhase::RequestSent(Intent::Download) => {
                self.phase = ClientPhase::Transferring(Intent::Download);
                Ok(TransferJob::Receive(self.local_path.clone()))
            },
            _ => Err(SessionError::InvalidState),
        }
    }

    /// Takes in that the transfer has ended well.
    pub fn finish(&mut self) -> (outcome: Result<(), SessionError>)
        ensures
            (final(self)@, outcome) == old(self)@.after_finish(),
    {
        match self.phase {
            ClientPhase::Transferring(_) => {
                self.phase = ClientPhase::Done;
                Ok(())
            },
            _ => Err(SessionError::InvalidState),
        }
    }

    /// Takes in that the connection has failed: the session, if there was
    /// one, is given up, and the client may connect again.
    pub fn fail(&mut self)
        ensures
            final(self)@ == old(self)@.after_fail(),
    {
        match self.phase {
            ClientPhase::Unconnected | ClientPhase::Failed => {},
            _ => {
                self.phase = ClientPhase::Failed;
            },
        }
    }
}

} // verus!
