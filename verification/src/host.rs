//! What a hosting shell keeps between its commands: one slot for a server, one
//! for a client, and the signal that stops the server.
//!
//! A slot is empty or holds one instance. Creating into a slot that is taken is
//! refused and leaves the slot as it was. The commands of the shell that do I/O
//! are cut at each point where the shell has to wait: every piece decides what
//! the shell does next and takes in how the last thing went.

use crate::address::{Address, IpAddress, Resolution};
use crate::client::{Client, ClientPhase, ClientView, Intent, TransferJob, TransferJobView};
use crate::error::{ReachabilityError, SessionError, TransportError};
use crate::request::{Request, RequestView};
use crate::server::{
    Server, ServerAction, ServerActionView, ServerEvent, ServerEventView, ServerPhase, ServerView,
};
use std::sync::Arc;
use tokio::sync::Notify;
use vstd::prelude::*;

verus! {

/// The port a server listens on unless told otherwise.
pub const DEFAULT_PORT: u16 = 8080;

/// The buffer size a server moves file bytes with unless told otherwise.
pub const DEFAULT_BUFFER_SIZE: usize = 4096;

/// `tokio::sync::Notify`, the signal that tells a running server to stop. What
/// is inside it is not visible here.
#[verifier::external_type_specification]
#[verifier::external_body]
pub struct ExNotify(tokio::sync::Notify);

/// `Notify::new` of tokio: a signal that no task waits on yet. Nothing is
/// claimed of it.
#[verifier::external_body]
fn new_signal() -> Notify {
    Notify::new()
}

/// `Notify::notify_waiters` of tokio: wakes every task that waits on the
/// signal at this moment. Nothing is claimed of it: it returns nothing and
/// changes nothing that this crate can see.
#[verifier::external_body]
fn wake_waiters(signal: &Arc<Notify>) {
    signal.notify_waiters()
}

/// `Arc::clone` of the standard library: another handle to the same signal.
#[verifier::external_body]
fn share_signal(signal: &Arc<Notify>) -> (shared: Arc<Notify>)
    ensures
        shared == *signal,
{
    Arc::clone(signal)
}

/// Why a command of the shell was refused or failed.
#[derive(Clone, Copy, Debug, PartialEq, Eq, Structural)]
pub enum HostError {
    /// No address could be settled for the server.
    Unreachable,
    /// The text given for the server's address is no IP address.
    InvalidAddress,
    /// The client slot is taken.
    ClientExists,
    /// The client slot is empty.
    NoClient,
    /// An engine refused the operation, or the outside world failed it.
    Session(SessionError),
    /// The files could not be sent.
    SendFailed,
    /// The files could not be received.
    DownloadFailed,
}

impl HostError {
    /// The text that the shell shows for this error.
    pub open spec fn text(self) -> Seq<char> {
        match self {
            HostError::Unreachable => "No reachable address for the server"@,
            HostError::InvalidAddress => "The server address is no IP address"@,
            HostError::ClientExists => "Server already exists"@,
            HostError::NoClient => "Server is none"@,
            HostError::Session(SessionError::InvalidState) => {
                "Not allowed in the present state of the session"@
            },
            HostError::Session(SessionError::Connect) => "Could not connect to the server"@,
            HostError::Session(SessionError::Bind) => "The address or port cannot be used"@,
            HostError::Session(SessionError::Io) => "The local files cannot be used"@,
            HostError::Session(_) => "The session failed"@,
            HostError::SendFailed => "could not send file/s"@,
            HostError::DownloadFailed => "could not download file/s"@,
        }
    }

    /// The text that the shell shows for this error.
    pub fn message(&self) -> (message: String)
        ensures
            message@ == self.text(),
    {
        match self {
            HostError::Unreachable => "No reachable address for the server".to_owned(),
            HostError::InvalidAddress => "The server address is no IP address".to_owned(),
            HostError::ClientExists => "Server already exists".to_owned(),
            HostError::NoClient => "Server is none".to_owned(),
            HostError::Session(SessionError::InvalidState) => {
                "Not allowed in the present state of the session".to_owned()
            },
            HostError::Session(SessionError::Connect) => {
                "Could not connect to the server".to_owned()
            },
            HostError::Session(SessionError::Bind) => {
                "The address or port cannot be used".to_owned()
            },
            HostError::Session(SessionError::Io) => "The local files cannot be used".to_owned(),
            HostError::Session(_) => "The session failed".to_owned(),
            HostError::SendFailed => "could not send file/s".to_owned(),
            HostError::DownloadFailed => "could not download file/s".to_owned(),
        }
    }
}

/// The server slot and the stop signal of a hosting shell. The slot holds a
/// server from its creation until it has stopped or has failed to start.
pub struct GlobalState {
    server: Option<Server>,
    stop_signal: Arc<Notify>,
}

impl View for GlobalState {
    type V = Option<ServerView>;

    closed spec fn view(&self) -> Option<ServerView> {
        match self.server {
            Some(server) => Some(server@),
            None => None,
        }
    }
}

/// The server that `create_server` puts into an empty slot.
pub open spec fn created_server(resolution: Resolution, path: Seq<char>) -> ServerView {
    ServerView {
        address: match resolution {
            Resolution::Mapped(address) => address,
            Resolution::Direct(address) => address,
        },
        root: path,
        buffer_size: DEFAULT_BUFFER_SIZE as nat,
        phase: ServerPhase::Unbound,
        stop_pending: false,
    }
}

/// The slot after `create_server`, and what is returned. Without an address
/// there is no server; a slot that is taken stays as it is.
pub open spec fn slot_after_create(
    held: Option<ServerView>,
    resolution: Result<Resolution, ReachabilityError>,
    path: Seq<char>,
) -> (Option<ServerView>, Result<bool, HostError>) {
    match resolution {
        Err(_) => (held, Err(HostError::Unreachable)),
        Ok(found) => match held {
            Some(_) => (held, Ok(false)),
            None => (Some(created_server(found, path)), Ok(true)),
        },
    }
}

/// The slot after the server in it has taken in `event`, and what the shell
/// is to do. A server that cannot start, because its directory cannot be
/// served or its address cannot be bound, leaves the slot, and so does a
/// server that has stopped: neither is a live server, and the slot is free
/// for the next.
pub open spec fn slot_after(held: ServerView, event: ServerEventView) -> (
    Option<ServerView>,
    ServerActionView,
) {
    let (next, action) = held.after(event);
    if action is Fail || next.phase is Stopped {
        (None, action)
    } else {
        (Some(next), action)
    }
}

/// A server whose address cannot be bound or whose directory cannot be served
/// does not exist afterwards: the failure is reported, the slot is empty, and
/// a server can be created again.
pub proof fn lemma_failed_start_frees_slot(
    resolution: Resolution,
    path: Seq<char>,
    next: Resolution,
    other: Seq<char>,
)
    ensures
        slot_after(created_server(resolution, path), ServerEventView::BindFailed) == (
            None::<ServerView>,
            ServerActionView::Fail(SessionError::Bind),
        ),
        slot_after(created_server(resolution, path), ServerEventView::RootInvalid) == (
            None::<ServerView>,
            ServerActionView::Fail(SessionError::Io),
        ),
        slot_after_create(None, Ok(next), other) == (
            Some(created_server(next, other)),
            Ok::<bool, HostError>(true),
        ),
{
}

/// A server that is asked to stop between sessions leaves the slot at once;
/// one that is asked during a session stays until the session has ended, and
/// leaves then.
pub proof fn lemma_stop_frees_slot(held: ServerView)
    ensures
        held.phase is Listening ==> slot_after(held, ServerEventView::StopRequested) == (
            None::<ServerView>,
            ServerActionView::Shutdown,
        ),
        held.phase is Serving ==> ({
            let asked = slot_after(held, ServerEventView::StopRequested);
            &&& asked == (
                Some(ServerView { stop_pending: true, ..held }),
                ServerActionView::Nothing,
            )
            &&& slot_after(asked.0->Some_0, ServerEventView::SessionEnded) == (
                None::<ServerView>,
                ServerActionView::Shutdown,
            )
        }),
{
}

impl GlobalState {
    /// The signal that stops the server of this state.
    pub closed spec fn signal(&self) -> Arc<Notify> {
        self.stop_signal
    }

    /// An empty slot and a signal of its own.
    pub fn new() -> (state: GlobalState)
        ensures
            state@ is None,
    {
        GlobalState { server: None, stop_signal: Arc::new(new_signal()) }
    }

    /// The server in the slot, if there is one.
    pub fn get_server(&self) -> (server: Option<&Server>)
        ensures
            match self@ {
                Some(held) => server matches Some(found) && found@ == held,
                None => server is None,
            },
    {
        self.server.as_ref()
    }

    /// A handle to the stop signal. The shell hands it to whatever runs the
    /// accept loop.
    pub fn get_stop_signal(&self) -> (signal: Arc<Notify>)
        ensures
            signal == self.signal(),
    {
        share_signal(&self.stop_signal)
    }

    /// Takes in how the resolution of the server's address went and, if there
    /// is an address and the slot is empty, puts a server for the directory
    /// `path` into the slot. Tells whether it did. Without an address the
    /// command fails; a slot that is taken stays as it is. The server is not
    /// bound yet: the shell checks the directory and binds, and reports with
    /// `step_server`.
    pub fn create_server(
        &mut self,
        resolution: Result<Resolution, ReachabilityError>,
        path: &str,
    ) -> (created: Result<bool, HostError>)
        ensures
            final(self).signal() == old(self).signal(),
            (final(self)@, created) == slot_after_create(old(self)@, resolution, path@),
    {
        match resolution {
            Err(_) => Err(HostError::Unreachable),
            Ok(found) => {
                if self.server.is_none() {
                    self.server = Some(Server::new(found.address(), path, DEFAULT_BUFFER_SIZE));
                    Ok(true)
                } else {
                    Ok(false)
                }
            },
        }
    }

    /// Hands `event` to the server in the slot and tells what the shell is to
    /// do next; nothing if the slot is empty. A server that fails to start or
    /// that stops leaves the slot.
    pub fn step_server(&mut self, event: ServerEvent) -> (action: Option<ServerAction>)
        ensures
            final(self).signal() == old(self).signal(),
            match old(self)@ {
                Some(held) => final(self)@ == slot_after(held, event@).0 && (action matches Some(
                    todo,
                ) && todo@ == slot_after(held, event@).1),
                None => final(self)@ is None && action is None,
            },
    {
        let (action, leaves) = match &mut self.server {
            Some(server) => {
                let action = server.step(event);
                let failed = match &action {
                    ServerAction::Fail(_) => true,
                    _ => false,
                };
                let stopped = match server.phase() {
                    ServerPhase::Stopped => true,
                    _ => false,
                };
                (Some(action), failed || stopped)
            },
            None => (None, false),
        };
        if leaves {
            self.server = None;
        }
        action
    }

    /// Fires the stop signal for every task that waits on it now, and hands
    /// the request to stop to the server in the slot. Firing it again does no
    /// harm.
    pub fn stop_server(&mut self) -> (action: Option<ServerAction>)
        ensures
            final(self).signal() == old(self).signal(),
            match old(self)@ {
                Some(held) => final(self)@ == slot_after(held, ServerEventView::StopRequested).0
                    && (action matches Some(todo) && todo@ == slot_after(
                    held,
                    ServerEventView::StopRequested,
                ).1),
                None => final(self)@ is None && action is None,
            },
    {
        wake_waiters(&self.stop_signal);
        self.step_server(ServerEvent::StopRequested)
    }
}

/// The client slot of a hosting shell.
pub struct ClientState {
    client: Option<Client>,
}

impl View for ClientState {
    type V = Option<ClientView>;

    closed spec fn view(&self) -> Option<ClientView> {
        match self.client {
            Some(client) => Some(client@),
            None => None,
        }
    }
}

/// What a command that needs a client comes to on a slot that holds `held`:
/// the refusal of an empty slot, or what the client makes of it.
pub open spec fn on_client<T>(
    held: Option<ClientView>,
    run: spec_fn(ClientView) -> (ClientView, Result<T, SessionError>),
) -> (Option<ClientView>, Result<T, HostError>) {
    match held {
        None => (None, Err(HostError::NoClient)),
        Some(client) => (
            Some(run(client).0),
            match run(client).1 {
                Ok(value) => Ok(value),
                Err(fault) => Err(HostError::Session(fault)),
            },
        ),
    }
}

/// What a client makes of the news whether its upload request went out: the
/// job to do if it did, and a session given up if it did not.
pub open spec fn send_step(held: ClientView, accepted: bool, path: Seq<char>) -> (
    ClientView,
    Result<TransferJobView, SessionError>,
) {
    if accepted {
        held.after_send(path)
    } else {
        (held.after_fail(), Err(SessionError::Transport(TransportError::Interrupted)))
    }
}

/// What a client makes of the news whether its download request went out.
pub open spec fn download_step(held: ClientView, accepted: bool) -> (
    ClientView,
    Result<TransferJobView, SessionError>,
) {
    if accepted {
        held.after_download()
    } else {
        (held.after_fail(), Err(SessionError::Transport(TransportError::Interrupted)))
    }
}

/// What a client makes of the news whether the files arrived.
pub open spec fn ended(held: ClientView, arrived: bool) -> (ClientView, Result<(), HostError>) {
    if arrived {
        (
            held.after_finish().0,
            match held.after_finish().1 {
                Ok(()) => Ok(()),
                Err(fault) => Err(HostError::Session(fault)),
            },
        )
    } else {
        (
            held.after_fail(),
            Err(
                match held.phase {
                    ClientPhase::Transferring(Intent::Upload) => HostError::SendFailed,
                    ClientPhase::Transferring(Intent::Download) => HostError::DownloadFailed,
                    _ => HostError::Session(SessionError::InvalidState),
                },
            ),
        )
    }
}

/// The client slot after `start_client`, and what is returned.
pub open spec fn slot_after_start(
    held: Option<ClientView>,
    server: Option<IpAddress>,
    local_path: Seq<char>,
) -> (Option<ClientView>, Result<(), HostError>) {
    match server {
        None => (held, Err(HostError::InvalidAddress)),
        Some(ip) => match held {
            Some(_) => (held, Err(HostError::ClientExists)),
            None => (
                Some(
                    ClientView {
                        local_path,
                        server: Address { ip, port: DEFAULT_PORT },
                        phase: ClientPhase::Unconnected,
                    },
                ),
                Ok(()),
            ),
        },
    }
}

impl ClientState {
    /// An empty slot.
    pub fn new() -> (state: ClientState)
        ensures
            state@ is None,
    {
        ClientState { client: None }
    }

    /// The client in the slot, if there is one.
    pub fn get_client(&self) -> (client: Option<&Client>)
        ensures
            match self@ {
                Some(held) => client matches Some(found) && found@ == held,
                None => client is None,
            },
    {
        self.client.as_ref()
    }

    /// Takes in the server's address as the shell parsed it, nothing if the
    /// text was no IP address, and puts a client for that server, at the
    /// default port, and the local directory `local_path` into the slot.
    /// Refused if there is no address or if the slot is taken; the slot then
    /// stays as it is.
    pub fn start_client(&mut self, server: Option<IpAddress>, local_path: &str) -> (outcome: Result<
        (),
        HostError,
    >)
        ensures
            (final(self)@, outcome) == slot_after_start(old(self)@, server, local_path@),
    {
        match server {
            None => Err(HostError::InvalidAddress),
            Some(ip) => {
                if self.client.is_some() {
                    Err(HostError::ClientExists)
                } else {
                    let address = Address { ip, port: DEFAULT_PORT };
                    self.client = Some(Client::new(local_path, address));
                    Ok(())
                }
            },
        }
    }

    /// First piece of connecting: the address that the shell is to connect
    /// to.
    pub fn connect(&self) -> (target: Result<Address, HostError>)
        ensures
            target == (match self@ {
                None => Err::<Address, HostError>(HostError::NoClient),
                Some(held) => if held.may_connect() {
                    Ok(held.server)
                } else {
                    Err(HostError::Session(SessionError::InvalidState))
                },
            }),
    {
        match &self.client {
            None => Err(HostError::NoClient),
            Some(client) => match client.connect() {
                Ok(address) => Ok(address),
                Err(fault) => Err(HostError::Session(fault)),
            },
        }
    }

    /// Second piece of connecting: takes in whether the connection could be
    /// opened.
    pub fn connected(&mut self, reached: bool) -> (outcome: Result<(), HostError>)
        ensures
            (final(self)@, outcome) == on_client(
                old(self)@,
                |held: ClientView| held.after_connected(reached),
            ),
    {
        match &mut self.client {
            None => Err(HostError::NoClient),
            Some(client) => match client.connected(reached) {
                Ok(()) => Ok(()),
                Err(fault) => Err(HostError::Session(fault)),
            },
        }
    }

    /// First piece of sending or downloading: begins a session with `request`,
    /// which the shell is to send.
    fn begin(&mut self, request: Request) -> (outcome: Result<Request, HostError>)
        ensures
            final(self)@ == on_client(
                old(self)@,
                |held: ClientView| held.after_send_request(request@),
            ).0,
            match on_client(old(self)@, |held: ClientView| held.after_send_request(request@)).1 {
                Ok(_) => outcome matches Ok(issued) && issued@ == request@,
                Err(fault) => outcome matches Err(got) && got == fault,
            },
    {
        match &mut self.client {
            None => Err(HostError::NoClient),
            Some(client) => match client.send_request(&request) {
                Ok(_) => Ok(request),
                Err(fault) => Err(HostError::Session(fault)),
            },
        }
    }

    /// First piece of sending: begins an upload session. The shell is to send
    /// the request that comes back.
    pub fn send_begin(&mut self) -> (outcome: Result<Request, HostError>)
        ensures
            final(self)@ == on_client(
                old(self)@,
                |held: ClientView| held.after_send_request(RequestView::Upload),
            ).0,
            match on_client(
                old(self)@,
                |held: ClientView| held.after_send_request(RequestView::Upload),
            ).1 {
                Ok(_) => outcome matches Ok(issued) && issued@ == RequestView::Upload,
                Err(fault) => outcome matches Err(got) && got == fault,
            },
    {
        self.begin(Request::Upload)
    }

    /// First piece of downloading: begins a session that asks for `path`. The
    /// shell is to send the request that comes back.
    pub fn download_begin(&mut self, path: &str) -> (outcome: Result<Request, HostError>)
        ensures
            final(self)@ == on_client(
                old(self)@,
                |held: ClientView| held.after_send_request(RequestView::Get(path@)),
            ).0,
            match on_client(
                old(self)@,
                |held: ClientView| held.after_send_request(RequestView::Get(path@)),
            ).1 {
                Ok(_) => outcome matches Ok(issued) && issued@ == RequestView::Get(path@),
                Err(fault) => outcome matches Err(got) && got == fault,
            },
    {
        self.begin(Request::Get(path.to_owned()))
    }

    /// Second piece of sending: takes in whether the request went out. If it
    /// did, the shell is to stream `path_to_send`; if not, the session is given
    /// up.
    pub fn send_requested(&mut self, accepted: bool, path_to_send: &str) -> (outcome: Result<
        TransferJob,
        HostError,
    >)
        ensures
            final(self)@ == on_client(
                old(self)@,
                |held: ClientView| send_step(held, accepted, path_to_send@),
            ).0,
            match on_client(
                old(self)@,
                |held: ClientView| send_step(held, accepted, path_to_send@),
            ).1 {
                Ok(job) => outcome matches Ok(todo) && todo@ == job,
                Err(fault) => outcome matches Err(got) && got == fault,
            },
    {
        match &mut self.client {
            None => Err(HostError::NoClient),
            Some(client) => if accepted {
                match client.send(path_to_send) {
                    Ok(job) => Ok(job),
                    Err(fault) => Err(HostError::Session(fault)),
                }
            } else {
                client.fail();
                Err(HostError::Session(SessionError::Transport(TransportError::Interrupted)))
            },
        }
    }

    /// Second piece of downloading: takes in whether the request went out. If
    /// it did, the shell is to receive into the local directory; if not, the
    /// session is given up.
    pub fn download_requested(&mut self, accepted: bool) -> (outcome: Result<
        TransferJob,
        HostError,
    >)
        ensures
            final(self)@ == on_client(
                old(self)@,
                |held: ClientView| download_step(held, accepted),
            ).0,
            match on_client(old(self)@, |held: ClientView| download_step(held, accepted)).1 {
                Ok(job) => outcome matches Ok(todo) && todo@ == job,
                Err(fault) => outcome matches Err(got) && got == fault,
            },
    {
        match &mut self.client {
            None => Err(HostError::NoClient),
            Some(client) => if accepted {
                match client.download() {
                    Ok(job) => Ok(job),
                    Err(fault) => Err(HostError::Session(fault)),
                }
            } else {
                client.fail();
                Err(HostError::Session(SessionError::Transport(TransportError::Interrupted)))
            },
        }
    }

    /// Last piece of sending or downloading: takes in whether the files
    /// arrived. If they did not, the session is given up and the error says
    /// which way they were going.
    pub fn transfer_ended(&mut self, arrived: bool) -> (outcome: Result<(), HostError>)
        ensures
            (final(self)@, outcome) == (match old(self)@ {
                None => (None, Err(HostError::NoClient)),
                Some(held) => (Some(ended(held, arrived).0), ended(held, arrived).1),
            }),
    {
        match &mut self.client {
            None => Err(HostError::NoClient),
            Some(client) => if arrived {
                match client.finish() {
                    Ok(()) => Ok(()),
                    Err(fault) => Err(HostError::Session(fault)),
                }
            } else {
                let fault = match client.phase() {
                    ClientPhase::Transferring(Intent::Upload) => HostError::SendFailed,
                    ClientPhase::Transferring(Intent::Download) => HostError::DownloadFailed,
                    _ => HostError::Session(SessionError::InvalidState),
                };
                client.fail();
                Err(fault)
            },
        }
    }
}

} // verus!
