use chat_rs::codec::encode_client_msg;
use chat_rs::handler::{handle_event, ConnEvent, ConnState};
use chat_rs::protocol::{ClientToServer, ServerToClient};
use chat_rs::router::{route, ServerState};
use chat_rs::store::normalize_key;

fn frame(m: &ClientToServer) -> ConnEvent {
    ConnEvent::Frame(encode_client_msg(m).unwrap())
}

fn register(server: &mut ServerState, conn: u64, handle: &str) -> ConnState {
    let (state, outs) = handle_event(
        server,
        conn,
        ConnState::AwaitingRegistration,
        frame(&ClientToServer::Register { handle: handle.to_string() }),
    );
    assert_eq!(outs.len(), 1);
    assert_eq!(outs[0].dest, conn);
    assert_eq!(outs[0].msg, ServerToClient::Registered { handle: handle.to_string() });
    assert!(matches!(state, ConnState::Active { .. }));
    state
}

#[test]
fn list_users_answers_the_sender() {
    let mut server = ServerState::new();
    register(&mut server, 1, "alice");
    register(&mut server, 2, "bob");
    let outs = route(&mut server, &"alice".to_string(), &ClientToServer::ListUsers);
    assert_eq!(outs.len(), 1);
    assert_eq!(outs[0].dest, 1);
    assert_eq!(
        outs[0].msg,
        ServerToClient::UserList { users: vec!["alice".to_string(), "bob".to_string()] }
    );
}

#[test]
fn send_to_unknown_target_reports_and_mutates_nothing() {
    let mut server = ServerState::new();
    register(&mut server, 1, "alice");
    let outs = route(
        &mut server,
        &"alice".to_string(),
        &ClientToServer::SendMessage { content: "hi".to_string(), target: "ghost".to_string() },
    );
    assert_eq!(outs.len(), 1);
    assert_eq!(outs[0].dest, 1);
    assert_eq!(
        outs[0].msg,
        ServerToClient::Error { message: "Target handle doesn't exist.".to_string() }
    );
    assert!(!server.store.has_log(&normalize_key("alice", "ghost")));
}

#[test]
fn send_to_known_target_appends_and_forwards() {
    let mut server = ServerState::new();
    register(&mut server, 1, "alice");
    register(&mut server, 2, "bob");
    let outs = route(
        &mut server,
        &"alice".to_string(),
        &ClientToServer::SendMessage { content: "hi".to_string(), target: "bob".to_string() },
    );
    assert_eq!(outs.len(), 1);
    assert_eq!(outs[0].dest, 2);
    assert_eq!(
        outs[0].msg,
        ServerToClient::ChatMessage { sender: "alice".to_string(), content: "hi".to_string() }
    );
    let log = server.store.get_log(&normalize_key("bob", "alice"));
    assert_eq!(log.len(), 1);
    assert_eq!(log[0].sender, "alice");
    assert_eq!(log[0].content, "hi");
}

#[test]
fn get_messages_of_fresh_pair_is_empty_and_creates_no_log() {
    let mut server = ServerState::new();
    register(&mut server, 1, "alice");
    register(&mut server, 2, "bob");
    let outs = route(
        &mut server,
        &"alice".to_string(),
        &ClientToServer::GetMessages { target: "bob".to_string() },
    );
    assert_eq!(outs.len(), 1);
    assert_eq!(outs[0].dest, 1);
    assert_eq!(
        outs[0].msg,
        ServerToClient::ChatMessages { partner: "bob".to_string(), messages: Vec::new() }
    );
    assert!(!server.store.has_log(&normalize_key("alice", "bob")));
}

#[test]
fn duplicate_registration_is_refused_and_closed() {
    let mut server = ServerState::new();
    register(&mut server, 1, "alice");
    let (state, outs) = handle_event(
        &mut server,
        2,
        ConnState::AwaitingRegistration,
        frame(&ClientToServer::Register { handle: "alice".to_string() }),
    );
    assert!(matches!(state, ConnState::Closed));
    assert_eq!(outs.len(), 1);
    assert_eq!(outs[0].dest, 2);
    assert_eq!(
        outs[0].msg,
        ServerToClient::Error { message: "Handle already taken".to_string() }
    );
    // The first registration still stands.
    assert_eq!(server.registry.lookup(&"alice".to_string()), Some(1));
}

#[test]
fn first_frame_must_be_register() {
    let mut server = ServerState::new();
    let (state, outs) =
        handle_event(&mut server, 1, ConnState::AwaitingRegistration, frame(&ClientToServer::ListUsers));
    assert!(matches!(state, ConnState::Closed));
    assert!(outs.is_empty());
}

#[test]
fn undecodable_first_frame_closes_without_reply() {
    let mut server = ServerState::new();
    let (state, outs) = handle_event(
        &mut server,
        1,
        ConnState::AwaitingRegistration,
        ConnEvent::Frame(vec![0xFFu8, 0xFE]),
    );
    assert!(matches!(state, ConnState::Closed));
    assert!(outs.is_empty());
}

#[test]
fn eof_before_registration_closes_quietly() {
    let mut server = ServerState::new();
    let (state, outs) = handle_event(&mut server, 1, ConnState::AwaitingRegistration, ConnEvent::Eof);
    assert!(matches!(state, ConnState::Closed));
    assert!(outs.is_empty());
}

#[test]
fn eof_frees_the_handle_for_reuse() {
    let mut server = ServerState::new();
    let state = register(&mut server, 1, "alice");
    let (state2, outs) = handle_event(&mut server, 1, state, ConnEvent::Eof);
    assert!(matches!(state2, ConnState::Closed));
    assert!(outs.is_empty());
    register(&mut server, 2, "alice");
    assert_eq!(server.registry.lookup(&"alice".to_string()), Some(2));
}

#[test]
fn undecodable_frame_on_active_connection_is_fatal() {
    let mut server = ServerState::new();
    let state = register(&mut server, 1, "alice");
    let (state2, outs) =
        handle_event(&mut server, 1, state, ConnEvent::Frame(vec![0x07u8, 1, 2, 3]));
    assert!(matches!(state2, ConnState::Closed));
    assert!(outs.is_empty());
    assert_eq!(server.registry.lookup(&"alice".to_string()), None);
}

#[test]
fn register_on_active_connection_is_a_violation() {
    let mut server = ServerState::new();
    let state = register(&mut server, 1, "alice");
    let (state2, outs) = handle_event(
        &mut server,
        1,
        state,
        frame(&ClientToServer::Register { handle: "again".to_string() }),
    );
    assert!(matches!(state2, ConnState::Closed));
    assert!(outs.is_empty());
    assert_eq!(server.registry.lookup(&"alice".to_string()), None);
}

#[test]
fn chat_logs_outlive_connections() {
    let mut server = ServerState::new();
    let alice = register(&mut server, 1, "alice");
    register(&mut server, 2, "bob");
    route(
        &mut server,
        &"alice".to_string(),
        &ClientToServer::SendMessage { content: "hi".to_string(), target: "bob".to_string() },
    );
    handle_event(&mut server, 1, alice, ConnEvent::Eof);
    let log = server.store.get_log(&normalize_key("alice", "bob"));
    assert_eq!(log.len(), 1);
    assert_eq!(log[0].content, "hi");
}

#[test]
fn end_to_end_two_clients_exchange_a_message() {
    let mut server = ServerState::new();

    // Client A registers as "alice", client B as "bob".
    let alice = register(&mut server, 1, "alice");
    let _bob = register(&mut server, 2, "bob");

    // A sends "hi" to bob; the frame is forwarded to B's connection.
    let (alice, outs) = {
        let (st, outs) = handle_event(
            &mut server,
            1,
            alice,
            frame(&ClientToServer::SendMessage {
                content: "hi".to_string(),
                target: "bob".to_string(),
            }),
        );
        (st, outs)
    };
    assert_eq!(outs.len(), 1);
    assert_eq!(outs[0].dest, 2);
    assert_eq!(
        outs[0].msg,
        ServerToClient::ChatMessage { sender: "alice".to_string(), content: "hi".to_string() }
    );

    // A later asks for the chat with bob and gets the one message back.
    let (_alice, outs) = handle_event(
        &mut server,
        1,
        alice,
        frame(&ClientToServer::GetMessages { target: "bob".to_string() }),
    );
    assert_eq!(outs.len(), 1);
    assert_eq!(outs[0].dest, 1);
    assert_eq!(
        outs[0].msg,
        ServerToClient::ChatMessages {
            partner: "bob".to_string(),
            messages: vec![chat_rs::protocol::Message {
                sender: "alice".to_string(),
                content: "hi".to_string(),
            }],
        }
    );
}
