//! The message router: given a registered sender and one request, it reads
//! and writes the shared state and says which frames go out to which
//! connections. It holds no state of its own; everything persistent lives in
//! the registry and the store.

use vstd::prelude::*;
use crate::protocol::{ClientToServer, ClientToServerView, Message, MessageView, ServerToClient,
    ServerToClientView};
use crate::registry::Registry;
use crate::store::{log_of, normalize_key, spec_normalize, ChatStore};

verus! {

/// Everything the server keeps between requests: the live handles and the
/// chat logs.
pub struct ServerState {
    pub registry: Registry,
    pub store: ChatStore,
}

impl ServerState {
    /// Both parts keep their own invariants.
    pub open spec fn wf(&self) -> bool {
        self.registry.wf() && self.store.wf()
    }

    /// A fresh server knows no handle and holds no log.
    pub fn new() -> (r: ServerState)
        ensures
            r.wf(),
            r.registry@ == Map::<Seq<char>, u64>::empty(),
            r.store@ == Map::<(Seq<char>, Seq<char>), Seq<MessageView>>::empty(),
    {
        ServerState { registry: Registry::new(), store: ChatStore::new() }
    }
}

/// One frame to deliver: the connection it goes to, and the message.
pub struct Outbound {
    pub dest: u64,
    pub msg: ServerToClient,
}

/// What routing one request from a registered `sender` does: how the state
/// after relates to the state before, and which messages go out.
///
/// `ListUsers` and `GetMessages` answer the sender and change nothing; a
/// `GetMessages` for a pair that never exchanged a message answers with the
/// empty log and creates none. `SendMessage` to an unknown handle answers
/// the sender with an error and changes nothing; to a known handle it
/// appends to the pair's log and forwards to the target's connection.
/// `Register` never reaches the router.
pub open spec fn routed(
    pre: ServerState,
    post: ServerState,
    sender: Seq<char>,
    req: ClientToServerView,
    outs: Seq<Outbound>,
) -> bool {
    match req {
        ClientToServerView::Register { .. } => false,
        ClientToServerView::ListUsers => {
            &&& post == pre
            &&& outs.len() == 1
            &&& outs[0].dest == pre.registry@[sender]
            &&& outs[0].msg@ == (ServerToClientView::UserList {
                users: pre.registry.handles(),
            })
        },
        ClientToServerView::GetMessages { target } => {
            &&& post == pre
            &&& outs.len() == 1
            &&& outs[0].dest == pre.registry@[sender]
            &&& outs[0].msg@ == (ServerToClientView::ChatMessages {
                partner: target,
                messages: log_of(pre.store@, spec_normalize(sender, target)),
            })
        },
        ClientToServerView::SendMessage { content, target } => {
            &&& outs.len() == 1
            &&& !pre.registry@.contains_key(target) ==> {
                &&& post == pre
                &&& outs[0].dest == pre.registry@[sender]
                &&& outs[0].msg@ == (ServerToClientView::Error {
                    message: "Target handle doesn't exist."@,
                })
            }
            &&& pre.registry@.contains_key(target) ==> {
                &&& post.registry == pre.registry
                &&& post.store@ == pre.store@.insert(
                    spec_normalize(sender, target),
                    log_of(pre.store@, spec_normalize(sender, target)).push(
                        MessageView { sender, content },
                    ),
                )
                &&& outs[0].dest == pre.registry@[target]
                &&& outs[0].msg@ == (ServerToClientView::ChatMessage { sender, content })
            }
        },
    }
}

/// Append-only ordering: after a sender routes two messages to the same
/// registered target with nothing in between, the pair's log is its old
/// contents followed by the two messages in send order — read under either
/// ordering of the pair.
pub proof fn lemma_send_ordering(
    s0: ServerState,
    s1: ServerState,
    s2: ServerState,
    sender: Seq<char>,
    target: Seq<char>,
    c1: Seq<char>,
    c2: Seq<char>,
    o1: Seq<Outbound>,
    o2: Seq<Outbound>,
)
    requires
        s0.registry@.contains_key(target),
        routed(s0, s1, sender, ClientToServerView::SendMessage { content: c1, target }, o1),
        routed(s1, s2, sender, ClientToServerView::SendMessage { content: c2, target }, o2),
    ensures
        log_of(s2.store@, spec_normalize(sender, target)) == log_of(
            s0.store@,
            spec_normalize(sender, target),
        ).push(MessageView { sender, content: c1 }).push(MessageView { sender, content: c2 }),
        log_of(s2.store@, spec_normalize(target, sender)) == log_of(
            s0.store@,
            spec_normalize(sender, target),
        ).push(MessageView { sender, content: c1 }).push(MessageView { sender, content: c2 }),
{
    let k = spec_normalize(sender, target);
    assert(s1.store@ == s0.store@.insert(k, log_of(s0.store@, k).push(
        MessageView { sender, content: c1 },
    )));
    assert(log_of(s1.store@, k) == log_of(s0.store@, k).push(
        MessageView { sender, content: c1 },
    ));
    crate::store::lemma_normalize_symmetric(sender, target);
}

/// No log is created by reading: a `GetMessages` for a pair that never
/// exchanged a message answers with the empty log, and afterwards the store
/// still holds no log for the pair.
pub proof fn lemma_get_messages_creates_no_log(
    pre: ServerState,
    post: ServerState,
    sender: Seq<char>,
    target: Seq<char>,
    outs: Seq<Outbound>,
)
    requires
        routed(pre, post, sender, ClientToServerView::GetMessages { target }, outs),
        !pre.store@.contains_key(spec_normalize(sender, target)),
    ensures
        post.store@ == pre.store@,
        !post.store@.contains_key(spec_normalize(sender, target)),
        outs[0].msg@ == (ServerToClientView::ChatMessages {
            partner: target,
            messages: Seq::<MessageView>::empty(),
        }),
{
}

/// Routes one `SendMessage` request. When the target handle is not
/// registered, the sender gets an error and no log moves; otherwise the
/// message is appended to the pair's log and forwarded to the target's
/// connection.
pub fn send_chat_message(
    state: &mut ServerState,
    sender: &String,
    content: &String,
    target: &String,
) -> (outs: Vec<Outbound>)
    requires
        old(state).wf(),
        old(state).registry@.contains_key(sender@),
    ensures
        final(state).wf(),
        routed(
            *old(state),
            *final(state),
            sender@,
            ClientToServerView::SendMessage { content: content@, target: target@ },
            outs@,
        ),
{
    let mut outs: Vec<Outbound> = Vec::new();
    match state.registry.lookup(target) {
        None => {
            let dest = state.registry.lookup(sender).unwrap();
            outs.push(Outbound {
                dest,
                msg: ServerToClient::Error {
                    message: "Target handle doesn't exist.".to_owned(),
                },
            });
        },
        Some(target_conn) => {
            let key = normalize_key(sender.as_str(), target.as_str());
            state.store.append(&key, Message {
                sender: sender.clone(),
                content: content.clone(),
            });
            outs.push(Outbound {
                dest: target_conn,
                msg: ServerToClient::ChatMessage {
                    sender: sender.clone(),
                    content: content.clone(),
                },
            });
        },
    }
    outs
}

/// Routes one request from a registered sender. `Register` never reaches the
/// router: the connection state machine settles registration itself.
pub fn route(state: &mut ServerState, sender: &String, req: &ClientToServer) -> (outs: Vec<
    Outbound,
>)
    requires
        old(state).wf(),
        !(req@ is Register),
        old(state).registry@.contains_key(sender@),
    ensures
        final(state).wf(),
        routed(*old(state), *final(state), sender@, req@, outs@),
{
    match req {
        ClientToServer::Register { handle: _ } => {
            proof {
                assert(false);
            }
            Vec::new()
        },
        ClientToServer::ListUsers => {
            let dest = state.registry.lookup(sender).unwrap();
            let users = state.registry.list_handles();
            let mut outs: Vec<Outbound> = Vec::new();
            outs.push(Outbound { dest, msg: ServerToClient::UserList { users } });
            outs
        },
        ClientToServer::SendMessage { content, target } => {
            send_chat_message(state, sender, content, target)
        },
        ClientToServer::GetMessages { target } => {
            let dest = state.registry.lookup(sender).unwrap();
            let key = normalize_key(sender.as_str(), target.as_str());
            let messages = state.store.get_log(&key);
            let mut outs: Vec<Outbound> = Vec::new();
            outs.push(Outbound {
                dest,
                msg: ServerToClient::ChatMessages { partner: target.clone(), messages },
            });
            outs
        },
    }
}

} // verus!
