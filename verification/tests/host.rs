use peer_transfer::address::{Address, IpAddress, Resolution};
use peer_transfer::client::{ClientPhase, Intent, TransferJob};
use peer_transfer::error::{ReachabilityError, SessionError, TransportError};
use peer_transfer::host::{
    ClientState, GlobalState, HostError, DEFAULT_BUFFER_SIZE, DEFAULT_PORT,
};
use peer_transfer::request::Request;
use peer_transfer::server::{ServerAction, ServerEvent, ServerPhase};
use std::sync::Arc;

fn address() -> Address {
    Address { ip: IpAddress::V6(0x2001_0db8_0000_0000_0000_0000_0000_0001), port: DEFAULT_PORT }
}

#[test]
fn defaults() {
    assert_eq!(DEFAULT_PORT, 8080);
    assert_eq!(DEFAULT_BUFFER_SIZE, 4096);
}

#[test]
fn new_states_are_empty() {
    assert!(GlobalState::new().get_server().is_none());
    assert!(ClientState::new().get_client().is_none());
}

fn created() -> GlobalState {
    let mut state = GlobalState::new();
    assert_eq!(state.create_server(Ok(Resolution::Direct(address())), "/srv/share"), Ok(true));
    state
}

fn listening() -> GlobalState {
    let mut state = created();
    assert_eq!(state.step_server(ServerEvent::Bound), Some(ServerAction::Nothing));
    assert_eq!(state.step_server(ServerEvent::Start), Some(ServerAction::AwaitConnection));
    state
}

#[test]
fn server_is_created_once() {
    let mut state = created();
    {
        let server = state.get_server().unwrap();
        assert_eq!(server.address(), address());
        assert_eq!(server.root(), "/srv/share");
        assert_eq!(server.buffer_size(), 4096);
        assert_eq!(server.phase(), ServerPhase::Unbound);
    }
    let other = Address { ip: IpAddress::V4(1), port: 1 };
    assert_eq!(state.create_server(Ok(Resolution::Mapped(other)), "/elsewhere"), Ok(false));
    let server = state.get_server().unwrap();
    assert_eq!(server.address(), address());
    assert_eq!(server.root(), "/srv/share");
}

#[test]
fn no_address_no_server() {
    let mut state = GlobalState::new();
    assert_eq!(
        state.create_server(Err(ReachabilityError), "/srv/share"),
        Err(HostError::Unreachable)
    );
    assert!(state.get_server().is_none());
    let mut taken = created();
    assert_eq!(taken.create_server(Err(ReachabilityError), "/x"), Err(HostError::Unreachable));
    assert_eq!(taken.get_server().unwrap().root(), "/srv/share");
}

#[test]
fn a_server_that_cannot_be_bound_does_not_exist() {
    let mut state = created();
    assert_eq!(
        state.step_server(ServerEvent::BindFailed),
        Some(ServerAction::Fail(SessionError::Bind))
    );
    assert!(state.get_server().is_none());
    assert_eq!(state.step_server(ServerEvent::Start), None);
    let other = Address { ip: IpAddress::V4(1), port: 9000 };
    assert_eq!(state.create_server(Ok(Resolution::Mapped(other)), "/elsewhere"), Ok(true));
    assert_eq!(state.get_server().unwrap().address(), other);
    assert_eq!(state.get_server().unwrap().root(), "/elsewhere");
}

#[test]
fn a_server_without_a_directory_does_not_exist() {
    let mut state = created();
    assert_eq!(
        state.step_server(ServerEvent::RootInvalid),
        Some(ServerAction::Fail(SessionError::Io))
    );
    assert!(state.get_server().is_none());
    assert_eq!(state.create_server(Ok(Resolution::Direct(address())), "/srv/other"), Ok(true));
}

#[test]
fn failures_to_start_come_only_before_the_start() {
    let mut state = listening();
    assert_eq!(state.step_server(ServerEvent::BindFailed), Some(ServerAction::Nothing));
    assert_eq!(state.step_server(ServerEvent::RootInvalid), Some(ServerAction::Nothing));
    assert_eq!(state.get_server().unwrap().phase(), ServerPhase::Listening);
}

#[test]
fn events_reach_the_server_in_the_slot() {
    let mut state = GlobalState::new();
    assert_eq!(state.step_server(ServerEvent::Bound), None);
    let mut state = listening();
    assert_eq!(state.get_server().unwrap().phase(), ServerPhase::Listening);
    assert_eq!(state.step_server(ServerEvent::Accepted), Some(ServerAction::ReadRequest));
    assert_eq!(
        state.step_server(ServerEvent::RequestRead(vec![1, 0, 0, 0])),
        Some(ServerAction::ReceiveUpload)
    );
    assert_eq!(state.step_server(ServerEvent::SessionEnded), Some(ServerAction::AwaitConnection));
    assert_eq!(state.get_server().unwrap().phase(), ServerPhase::Listening);
}

#[test]
fn stop_reaches_the_server_in_the_slot() {
    let mut state = GlobalState::new();
    assert_eq!(state.stop_server(), None);
    let mut state = created();
    assert_eq!(state.stop_server(), Some(ServerAction::Nothing));
    assert_eq!(state.get_server().unwrap().phase(), ServerPhase::Unbound);
    state.step_server(ServerEvent::Bound);
    state.step_server(ServerEvent::Start);
    assert_eq!(state.stop_server(), Some(ServerAction::Shutdown));
}

#[test]
fn a_stopped_server_leaves_the_slot() {
    let mut state = listening();
    assert_eq!(state.stop_server(), Some(ServerAction::Shutdown));
    assert!(state.get_server().is_none());
    assert_eq!(state.stop_server(), None);
    assert_eq!(state.create_server(Ok(Resolution::Direct(address())), "/srv/next"), Ok(true));
    assert_eq!(state.get_server().unwrap().phase(), ServerPhase::Unbound);
}

#[test]
fn a_server_stopped_during_a_session_leaves_when_the_session_ends() {
    let mut state = listening();
    state.step_server(ServerEvent::Accepted);
    assert_eq!(state.stop_server(), Some(ServerAction::Nothing));
    assert!(state.get_server().unwrap().stop_pending());
    assert_eq!(state.create_server(Ok(Resolution::Direct(address())), "/srv/next"), Ok(false));
    assert_eq!(
        state.step_server(ServerEvent::RequestRead(vec![1, 0, 0, 0])),
        Some(ServerAction::ReceiveUpload)
    );
    assert_eq!(state.step_server(ServerEvent::SessionEnded), Some(ServerAction::Shutdown));
    assert!(state.get_server().is_none());
}

#[test]
fn stop_signal_is_one_and_the_same() {
    let state = GlobalState::new();
    let one = state.get_stop_signal();
    let other = state.get_stop_signal();
    assert!(Arc::ptr_eq(&one, &other));
    assert!(!Arc::ptr_eq(&one, &GlobalState::new().get_stop_signal()));
}

#[test]
fn stop_wakes_who_waits_on_the_signal() {
    let runtime = tokio::runtime::Builder::new_current_thread().build().unwrap();
    let woken = runtime.block_on(async {
        let mut state = GlobalState::new();
        state.create_server(Ok(Resolution::Direct(address())), "/srv/share").unwrap();
        let signal = state.get_stop_signal();
        let waiter = tokio::spawn(async move {
            signal.notified().await;
            true
        });
        tokio::task::yield_now().await;
        assert!(!waiter.is_finished());
        state.stop_server();
        waiter.await.unwrap()
    });
    assert!(woken);
}

#[test]
fn stop_is_not_kept_for_who_waits_later() {
    let runtime = tokio::runtime::Builder::new_current_thread().build().unwrap();
    runtime.block_on(async {
        let mut state = GlobalState::new();
        state.stop_server();
        state.stop_server();
        let signal = state.get_stop_signal();
        let waiter = tokio::spawn(async move {
            signal.notified().await;
        });
        tokio::task::yield_now().await;
        assert!(!waiter.is_finished());
        state.stop_server();
        waiter.await.unwrap();
    });
}

#[test]
fn client_is_started_once() {
    let mut state = ClientState::new();
    assert_eq!(state.start_client(Some(address().ip), "inbox"), Ok(()));
    assert_eq!(state.get_client().unwrap().phase(), ClientPhase::Unconnected);
    assert_eq!(state.get_client().unwrap().local_path(), "inbox");
    assert_eq!(
        state.start_client(Some(IpAddress::V4(1)), "elsewhere"),
        Err(HostError::ClientExists)
    );
    assert_eq!(state.get_client().unwrap().server(), address());
    assert_eq!(state.get_client().unwrap().local_path(), "inbox");
}

#[test]
fn an_address_that_did_not_parse_starts_no_client() {
    let mut state = ClientState::new();
    assert_eq!(state.start_client(None, "/tmp/dl"), Err(HostError::InvalidAddress));
    assert!(state.get_client().is_none());
    assert_eq!(state.start_client(Some(IpAddress::V4(0x7f00_0001)), "/tmp/dl"), Ok(()));
    assert_eq!(state.start_client(None, "/tmp/other"), Err(HostError::InvalidAddress));
    assert_eq!(state.get_client().unwrap().local_path(), "/tmp/dl");
}

#[test]
fn a_client_talks_to_the_default_port() {
    let mut state = ClientState::new();
    state.start_client(Some(IpAddress::V4(0x7f00_0001)), "/tmp/dl").unwrap();
    assert_eq!(
        state.get_client().unwrap().server(),
        Address { ip: IpAddress::V4(0x7f00_0001), port: 8080 }
    );
}

#[test]
fn commands_without_a_client_are_refused() {
    let mut state = ClientState::new();
    assert_eq!(state.connect(), Err(HostError::NoClient));
    assert_eq!(state.connected(true), Err(HostError::NoClient));
    assert_eq!(state.send_begin(), Err(HostError::NoClient));
    assert_eq!(state.download_begin("a"), Err(HostError::NoClient));
    assert_eq!(state.send_requested(true, "a"), Err(HostError::NoClient));
    assert_eq!(state.download_requested(true), Err(HostError::NoClient));
    assert_eq!(state.transfer_ended(true), Err(HostError::NoClient));
    assert!(state.get_client().is_none());
}

fn connected_state() -> ClientState {
    let mut state = ClientState::new();
    state.start_client(Some(address().ip), "inbox").unwrap();
    assert_eq!(state.connect(), Ok(address()));
    assert_eq!(state.connected(true), Ok(()));
    state
}

#[test]
fn send_command_in_its_pieces() {
    let mut state = connected_state();
    assert_eq!(state.send_begin(), Ok(Request::Upload));
    assert_eq!(state.send_requested(true, "photos"), Ok(TransferJob::Send("photos".to_string())));
    assert_eq!(state.transfer_ended(true), Ok(()));
    assert_eq!(state.get_client().unwrap().phase(), ClientPhase::Done);
}

#[test]
fn download_command_in_its_pieces() {
    let mut state = connected_state();
    assert_eq!(state.download_begin("docs/a.txt"), Ok(Request::Get("docs/a.txt".to_string())));
    assert_eq!(
        state.get_client().unwrap().phase(),
        ClientPhase::RequestSent(Intent::Download)
    );
    assert_eq!(state.download_requested(true), Ok(TransferJob::Receive("inbox".to_string())));
    assert_eq!(state.transfer_ended(true), Ok(()));
}

#[test]
fn commands_before_connect_do_no_io() {
    let mut state = ClientState::new();
    state.start_client(Some(address().ip), "inbox").unwrap();
    assert_eq!(state.send_begin(), Err(HostError::Session(SessionError::InvalidState)));
    assert_eq!(state.download_begin("a"), Err(HostError::Session(SessionError::InvalidState)));
    let refused = Err(HostError::Session(SessionError::InvalidState));
    assert_eq!(state.send_requested(true, "a"), refused);
    assert_eq!(state.download_requested(true), refused);
    assert_eq!(state.transfer_ended(true), Err(HostError::Session(SessionError::InvalidState)));
    assert_eq!(state.get_client().unwrap().phase(), ClientPhase::Unconnected);
}

#[test]
fn failed_connect_can_be_repeated() {
    let mut state = ClientState::new();
    state.start_client(Some(address().ip), "inbox").unwrap();
    assert_eq!(state.connected(false), Err(HostError::Session(SessionError::Connect)));
    assert_eq!(state.connect(), Ok(address()));
    assert_eq!(state.connected(true), Ok(()));
    assert_eq!(state.connect(), Ok(address()));
    state.send_begin().unwrap();
    assert_eq!(state.connect(), Err(HostError::Session(SessionError::InvalidState)));
    assert_eq!(state.connected(true), Err(HostError::Session(SessionError::InvalidState)));
}

#[test]
fn a_request_that_did_not_go_out_gives_the_session_up() {
    let mut state = connected_state();
    state.send_begin().unwrap();
    assert_eq!(
        state.send_requested(false, "photos"),
        Err(HostError::Session(SessionError::Transport(TransportError::Interrupted)))
    );
    assert_eq!(state.get_client().unwrap().phase(), ClientPhase::Failed);
    let mut other = connected_state();
    other.download_begin("a").unwrap();
    assert_eq!(
        other.download_requested(false),
        Err(HostError::Session(SessionError::Transport(TransportError::Interrupted)))
    );
    assert_eq!(other.get_client().unwrap().phase(), ClientPhase::Failed);
}

#[test]
fn failed_transfers_say_which_way_they_went() {
    let mut state = connected_state();
    state.send_begin().unwrap();
    state.send_requested(true, "photos").unwrap();
    assert_eq!(state.transfer_ended(false), Err(HostError::SendFailed));
    assert_eq!(state.get_client().unwrap().phase(), ClientPhase::Failed);
    let mut other = connected_state();
    other.download_begin("a").unwrap();
    other.download_requested(true).unwrap();
    assert_eq!(other.transfer_ended(false), Err(HostError::DownloadFailed));
    assert_eq!(other.get_client().unwrap().phase(), ClientPhase::Failed);
}

#[test]
fn wrong_piece_for_the_request_is_refused() {
    let mut state = connected_state();
    state.send_begin().unwrap();
    assert_eq!(
        state.download_requested(true),
        Err(HostError::Session(SessionError::InvalidState))
    );
    assert_eq!(state.send_requested(true, "p"), Ok(TransferJob::Send("p".to_string())));
}

#[test]
fn messages() {
    assert_eq!(HostError::ClientExists.message(), "Server already exists");
    assert_eq!(HostError::NoClient.message(), "Server is none");
    assert_eq!(HostError::SendFailed.message(), "could not send file/s");
    assert_eq!(HostError::DownloadFailed.message(), "could not download file/s");
    assert_eq!(
        HostError::Session(SessionError::InvalidState).message(),
        "Not allowed in the present state of the session"
    );
    assert_eq!(
        HostError::Session(SessionError::Connect).message(),
        "Could not connect to the server"
    );
    assert_eq!(HostError::Session(SessionError::PathEscape).message(), "The session failed");
    assert_eq!(HostError::Session(SessionError::Io).message(), "The local files cannot be used");
    assert_eq!(
        HostError::Session(SessionError::Bind).message(),
        "The address or port cannot be used"
    );
    assert_eq!(HostError::Unreachable.message(), "No reachable address for the server");
    assert_eq!(HostError::InvalidAddress.message(), "The server address is no IP address");
}
