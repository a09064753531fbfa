use chat_rs::protocol::Message;
use chat_rs::registry::{RegisterError, Registry};
use chat_rs::store::{normalize_key, ChatStore};

#[test]
fn register_then_lookup() {
    let mut reg = Registry::new();
    assert!(reg.register("alice".to_string(), 1).is_ok());
    assert_eq!(reg.lookup(&"alice".to_string()), Some(1));
    assert_eq!(reg.lookup(&"bob".to_string()), None);
}

#[test]
fn second_registration_of_live_handle_fails() {
    let mut reg = Registry::new();
    assert!(reg.register("alice".to_string(), 1).is_ok());
    assert_eq!(reg.register("alice".to_string(), 2), Err(RegisterError::HandleTaken));
    // The losing attempt changes nothing: the first connection keeps the handle.
    assert_eq!(reg.lookup(&"alice".to_string()), Some(1));
}

#[test]
fn disconnect_frees_the_handle() {
    let mut reg = Registry::new();
    assert!(reg.register("alice".to_string(), 1).is_ok());
    reg.unregister(&"alice".to_string());
    assert_eq!(reg.lookup(&"alice".to_string()), None);
    assert!(reg.register("alice".to_string(), 2).is_ok());
    assert_eq!(reg.lookup(&"alice".to_string()), Some(2));
}

#[test]
fn unregister_is_idempotent() {
    let mut reg = Registry::new();
    reg.unregister(&"ghost".to_string());
    assert!(reg.register("alice".to_string(), 1).is_ok());
    reg.unregister(&"alice".to_string());
    reg.unregister(&"alice".to_string());
    assert_eq!(reg.lookup(&"alice".to_string()), None);
}

#[test]
fn list_handles_is_a_snapshot() {
    let mut reg = Registry::new();
    assert!(reg.register("alice".to_string(), 1).is_ok());
    assert!(reg.register("bob".to_string(), 2).is_ok());
    let snapshot = reg.list_handles();
    assert_eq!(snapshot, vec!["alice".to_string(), "bob".to_string()]);
    assert!(reg.register("carol".to_string(), 3).is_ok());
    // The earlier snapshot does not change retroactively.
    assert_eq!(snapshot, vec!["alice".to_string(), "bob".to_string()]);
    assert_eq!(reg.list_handles().len(), 3);
}

#[test]
fn normalize_key_is_order_independent() {
    let k1 = normalize_key("alice", "bob");
    let k2 = normalize_key("bob", "alice");
    assert_eq!(k1.first, "alice");
    assert_eq!(k1.second, "bob");
    assert_eq!(k2.first, "alice");
    assert_eq!(k2.second, "bob");
}

#[test]
fn normalize_key_orders_by_character_code() {
    // A prefix comes before its extension.
    let k = normalize_key("abc", "ab");
    assert_eq!(k.first, "ab");
    assert_eq!(k.second, "abc");
    // Handles are case-sensitive: capitals come before lower case.
    let k2 = normalize_key("alice", "Bob");
    assert_eq!(k2.first, "Bob");
    assert_eq!(k2.second, "alice");
    // The empty string comes first.
    let k3 = normalize_key("a", "");
    assert_eq!(k3.first, "");
    assert_eq!(k3.second, "a");
}

#[test]
fn normalize_key_of_equal_handles() {
    let k = normalize_key("alice", "alice");
    assert_eq!(k.first, "alice");
    assert_eq!(k.second, "alice");
}

#[test]
fn appends_keep_arrival_order() {
    let mut store = ChatStore::new();
    let key = normalize_key("alice", "bob");
    store.append(&key, Message { sender: "alice".to_string(), content: "m1".to_string() });
    store.append(&key, Message { sender: "alice".to_string(), content: "m2".to_string() });
    let log = store.get_log(&key);
    assert_eq!(log.len(), 2);
    assert_eq!(log[0].content, "m1");
    assert_eq!(log[1].content, "m2");
}

#[test]
fn log_reached_via_either_ordering_is_identical() {
    let mut store = ChatStore::new();
    store.append(
        &normalize_key("alice", "bob"),
        Message { sender: "alice".to_string(), content: "hi".to_string() },
    );
    store.append(
        &normalize_key("bob", "alice"),
        Message { sender: "bob".to_string(), content: "hello".to_string() },
    );
    let via_ab = store.get_log(&normalize_key("alice", "bob"));
    let via_ba = store.get_log(&normalize_key("bob", "alice"));
    assert_eq!(via_ab, via_ba);
    assert_eq!(via_ab.len(), 2);
}

#[test]
fn reading_creates_no_log() {
    let mut store = ChatStore::new();
    let key = normalize_key("alice", "bob");
    assert!(store.get_log(&key).is_empty());
    assert!(!store.has_log(&key));
    store.append(&key, Message { sender: "alice".to_string(), content: "hi".to_string() });
    assert!(store.has_log(&key));
}

#[test]
fn logs_of_different_pairs_are_separate() {
    let mut store = ChatStore::new();
    store.append(
        &normalize_key("alice", "bob"),
        Message { sender: "alice".to_string(), content: "to bob".to_string() },
    );
    store.append(
        &normalize_key("alice", "carol"),
        Message { sender: "alice".to_string(), content: "to carol".to_string() },
    );
    assert_eq!(store.get_log(&normalize_key("bob", "alice"))[0].content, "to bob");
    assert_eq!(store.get_log(&normalize_key("carol", "alice"))[0].content, "to carol");
    assert!(!store.has_log(&normalize_key("bob", "carol")));
}
