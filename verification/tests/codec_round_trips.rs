use chat_rs::codec::{decode_client_msg, decode_server_msg, encode_client_msg, encode_server_msg};
use chat_rs::protocol::{ClientToServer, Message, ServerToClient};

fn client_round_trip(m: ClientToServer) {
    let bytes = encode_client_msg(&m).unwrap();
    let back = decode_client_msg(&bytes).unwrap();
    assert_eq!(back, m);
}

fn server_round_trip(m: ServerToClient) {
    let bytes = encode_server_msg(&m).unwrap();
    let back = decode_server_msg(&bytes).unwrap();
    assert_eq!(back, m);
}

#[test]
fn client_register_round_trip() {
    client_round_trip(ClientToServer::Register { handle: "alice".to_string() });
}

#[test]
fn client_list_users_round_trip() {
    client_round_trip(ClientToServer::ListUsers);
}

#[test]
fn client_send_message_round_trip() {
    client_round_trip(ClientToServer::SendMessage {
        content: "hello there".to_string(),
        target: "bob".to_string(),
    });
}

#[test]
fn client_get_messages_round_trip() {
    client_round_trip(ClientToServer::GetMessages { target: "bob".to_string() });
}

#[test]
fn client_unicode_round_trip() {
    client_round_trip(ClientToServer::SendMessage {
        content: "héllo ✓ ∀x".to_string(),
        target: "bøb".to_string(),
    });
}

#[test]
fn client_empty_strings_round_trip() {
    client_round_trip(ClientToServer::SendMessage {
        content: String::new(),
        target: String::new(),
    });
}

#[test]
fn server_registered_round_trip() {
    server_round_trip(ServerToClient::Registered { handle: "alice".to_string() });
}

#[test]
fn server_user_list_round_trip() {
    server_round_trip(ServerToClient::UserList {
        users: vec!["alice".to_string(), "bob".to_string(), "carol".to_string()],
    });
    server_round_trip(ServerToClient::UserList { users: Vec::new() });
}

#[test]
fn server_chat_messages_round_trip() {
    server_round_trip(ServerToClient::ChatMessages {
        partner: "bob".to_string(),
        messages: vec![
            Message { sender: "alice".to_string(), content: "hi".to_string() },
            Message { sender: "bob".to_string(), content: "hello".to_string() },
        ],
    });
    server_round_trip(ServerToClient::ChatMessages {
        partner: "bob".to_string(),
        messages: Vec::new(),
    });
}

#[test]
fn server_chat_message_round_trip() {
    server_round_trip(ServerToClient::ChatMessage {
        sender: "alice".to_string(),
        content: "hi".to_string(),
    });
}

#[test]
fn server_error_round_trip() {
    server_round_trip(ServerToClient::Error { message: "Handle already taken".to_string() });
}

#[test]
fn exact_encoding_of_list_users() {
    assert_eq!(encode_client_msg(&ClientToServer::ListUsers).unwrap(), vec![1u8]);
}

#[test]
fn exact_encoding_of_register() {
    let bytes = encode_client_msg(&ClientToServer::Register { handle: "ab".to_string() })
        .unwrap();
    assert_eq!(bytes, vec![0u8, 0, 0, 0, 2, b'a', b'b']);
}

#[test]
fn exact_encoding_of_chat_message() {
    let bytes = encode_server_msg(&ServerToClient::ChatMessage {
        sender: "a".to_string(),
        content: "hi".to_string(),
    })
    .unwrap();
    assert_eq!(bytes, vec![3u8, 0, 0, 0, 1, b'a', 0, 0, 0, 2, b'h', b'i']);
}

#[test]
fn exact_decoding_of_register() {
    let m = decode_client_msg(&[0u8, 0, 0, 0, 2, b'a', b'b']).unwrap();
    assert_eq!(m, ClientToServer::Register { handle: "ab".to_string() });
}

#[test]
fn decode_rejects_empty_payload() {
    assert!(decode_client_msg(&[]).is_err());
    assert!(decode_server_msg(&[]).is_err());
}

#[test]
fn decode_rejects_unknown_tag() {
    assert!(decode_client_msg(&[9u8]).is_err());
    assert!(decode_server_msg(&[9u8]).is_err());
}

#[test]
fn decode_rejects_truncated_string() {
    assert!(decode_client_msg(&[0u8, 0, 0, 0, 5, b'a']).is_err());
    assert!(decode_client_msg(&[0u8, 0, 0]).is_err());
}

#[test]
fn decode_rejects_invalid_utf8() {
    assert!(decode_client_msg(&[0u8, 0, 0, 0, 1, 0xFF]).is_err());
}

#[test]
fn decode_rejects_trailing_bytes() {
    let mut bytes = encode_client_msg(&ClientToServer::ListUsers).unwrap();
    bytes.push(0);
    assert!(decode_client_msg(&bytes).is_err());
    let mut bytes2 =
        encode_client_msg(&ClientToServer::Register { handle: "a".to_string() }).unwrap();
    bytes2.push(7);
    assert!(decode_client_msg(&bytes2).is_err());
}

#[test]
fn decode_rejects_short_user_list() {
    let bytes = vec![1u8, 0, 0, 0, 2, 0, 0, 0, 1, b'a'];
    assert!(decode_server_msg(&bytes).is_err());
}
