//! The per-connection state machine.
//!
//! A connection starts awaiting registration, becomes active when its first
//! frame is a `Register` that wins the handle, and is closed on end of
//! stream, on a protocol violation, or on a frame that does not decode: a
//! decode failure is fatal to its own connection, never to the server.
//! Closing an active connection removes its handle from the registry; chat
//! logs outlive connections.
//!
//! The caller runs the socket I/O: it feeds each complete frame payload (or
//! the end of the stream) in as a [`ConnEvent`] and carries the returned
//! frames to their destination connections. A transport failure is handled
//! like an end of stream: the caller feeds `Eof` and closes the socket.

use vstd::prelude::*;
use crate::codec::{dec_c2s, decode_client_msg};
use crate::protocol::{ClientToServer, ClientToServerView, ServerToClient, ServerToClientView};
use crate::registry::RegisterError;
use crate::router::{route, routed, Outbound, ServerState};

verus! {

/// Where one connection stands in its life cycle.
pub enum ConnState {
    /// No frame has arrived yet; only `Register` is in contract.
    AwaitingRegistration,
    /// Registration succeeded under this handle.
    Active { handle: String },
    /// The connection is finished; its socket should be closed.
    Closed,
}

/// One thing that happened on a connection.
pub enum ConnEvent {
    /// A complete frame arrived; this is its payload.
    Frame(Vec<u8>),
    /// The peer closed the stream cleanly.
    Eof,
}

/// Advances one connection's state machine by one event.
///
/// `conn` is the connection's own identifier; replies to this connection are
/// addressed to it. The returned state replaces `st`, and every returned
/// frame is owed to the connection it names.
pub fn handle_event(server: &mut ServerState, conn: u64, st: ConnState, event: ConnEvent) -> (r:
    (ConnState, Vec<Outbound>))
    requires
        old(server).wf(),
        st matches ConnState::Active { handle } ==> old(server).registry@.contains_key(handle@)
            && old(server).registry@[handle@] == conn,
    ensures
        final(server).wf(),
        st is Closed ==> *final(server) == *old(server) && r.0 is Closed && r.1@.len() == 0,
        st is AwaitingRegistration && event is Eof ==> *final(server) == *old(server) && r.0
            is Closed && r.1@.len() == 0,
        event matches ConnEvent::Frame(p) ==> st is AwaitingRegistration ==> {
            &&& !(dec_c2s(p@) matches Some(m) && m is Register) ==> *final(server) == *old(
                server,
            ) && r.0 is Closed && r.1@.len() == 0
            &&& dec_c2s(p@) matches Some(ClientToServerView::Register { handle }) ==> {
                &&& old(server).registry@.contains_key(handle) ==> {
                    &&& *final(server) == *old(server)
                    &&& r.0 is Closed
                    &&& r.1@.len() == 1
                    &&& r.1@[0].dest == conn
                    &&& r.1@[0].msg@ == (ServerToClientView::Error {
                        message: "Handle already taken"@,
                    })
                }
                &&& !old(server).registry@.contains_key(handle) ==> {
                    &&& final(server).registry@ == old(server).registry@.insert(handle, conn)
                    &&& final(server).store@ == old(server).store@
                    &&& r.0 matches ConnState::Active { handle: h } && h@ == handle
                    &&& r.1@.len() == 1
                    &&& r.1@[0].dest == conn
                    &&& r.1@[0].msg@ == (ServerToClientView::Registered { handle })
                }
            }
        },
        st matches ConnState::Active { handle } ==> event is Eof ==> {
            &&& final(server).registry@ == old(server).registry@.remove(handle@)
            &&& final(server).store@ == old(server).store@
            &&& r.0 is Closed
            &&& r.1@.len() == 0
        },
        st matches ConnState::Active { handle } ==> event matches ConnEvent::Frame(p) ==> {
            &&& !(dec_c2s(p@) matches Some(m) && !(m is Register)) ==> {
                &&& final(server).registry@ == old(server).registry@.remove(handle@)
                &&& final(server).store@ == old(server).store@
                &&& r.0 is Closed
                &&& r.1@.len() == 0
            }
            &&& dec_c2s(p@) matches Some(m) ==> !(m is Register) ==> {
                &&& r.0 matches ConnState::Active { handle: h } && h@ == handle@
                &&& routed(*old(server), *final(server), handle@, m, r.1@)
            }
        },
{
    match st {
        ConnState::Closed => (ConnState::Closed, Vec::new()),
        ConnState::AwaitingRegistration => match event {
            ConnEvent::Eof => (ConnState::Closed, Vec::new()),
            ConnEvent::Frame(payload) => match decode_client_msg(payload.as_slice()) {
                Ok(ClientToServer::Register { handle }) => {
                    match server.registry.register(handle.clone(), conn) {
                        Ok(()) => {
                            let mut outs: Vec<Outbound> = Vec::new();
                            outs.push(Outbound {
                                dest: conn,
                                msg: ServerToClient::Registered { handle: handle.clone() },
                            });
                            (ConnState::Active { handle }, outs)
                        },
                        Err(RegisterError::HandleTaken) => {
                            let mut outs: Vec<Outbound> = Vec::new();
                            outs.push(Outbound {
                                dest: conn,
                                msg: ServerToClient::Error {
                                    message: "Handle already taken".to_owned(),
                                },
                            });
                            (ConnState::Closed, outs)
                        },
                    }
                },
                Ok(_) => (ConnState::Closed, Vec::new()),
                Err(_) => (ConnState::Closed, Vec::new()),
            },
        },
        ConnState::Active { handle } => match event {
            ConnEvent::Eof => {
                server.registry.unregister(&handle);
                (ConnState::Closed, Vec::new())
            },
            ConnEvent::Frame(payload) => match decode_client_msg(payload.as_slice()) {
                Ok(ClientToServer::Register { .. }) => {
                    server.registry.unregister(&handle);
                    (ConnState::Closed, Vec::new())
                },
                Ok(req) => {
                    let outs = route(server, &handle, &req);
                    (ConnState::Active { handle }, outs)
                },
                Err(_) => {
                    server.registry.unregister(&handle);
                    (ConnState::Closed, Vec::new())
                },
            },
        },
    }
}

} // verus!
