//! The byte encoding of the typed messages.
//!
//! Every string travels as a 4-byte big-endian byte count followed by its
//! UTF-8 bytes; every list as a 4-byte element count followed by its
//! elements; every message as one tag byte followed by its fields. Encoding
//! and decoding are exact inverses, which this module proves.

use vstd::prelude::*;
use vstd::utf8::{decode_utf8, encode_utf8, encode_utf8_decode_utf8, encode_utf8_valid_utf8,
    valid_utf8};
use crate::protocol::{ClientToServer, ClientToServerView, Message, MessageView, ServerToClient,
    ServerToClientView};
use crate::wire::{be32_bytes, be32_value, lemma_be32_round_trip};

verus! {

/// A string whose UTF-8 form fits the 4-byte byte count.
pub open spec fn str_fits(s: Seq<char>) -> bool {
    encode_utf8(s).len() <= u32::MAX
}

/// The encoding of one string: its UTF-8 byte count, then its UTF-8 bytes.
pub open spec fn enc_str(s: Seq<char>) -> Seq<u8>
    recommends
        str_fits(s),
{
    be32_bytes(encode_utf8(s).len() as u32) + encode_utf8(s)
}

/// Decodes one string from the front of `b`: the string and the bytes that
/// follow it, or `None` when `b` is too short or the bytes are not UTF-8.
pub open spec fn dec_str(b: Seq<u8>) -> Option<(Seq<char>, Seq<u8>)> {
    if b.len() < 4 {
        None
    } else {
        let n = be32_value(b.subrange(0, 4)) as int;
        if b.len() - 4 < n {
            None
        } else if valid_utf8(b.subrange(4, 4 + n)) {
            Some((decode_utf8(b.subrange(4, 4 + n)), b.skip(4 + n)))
        } else {
            None
        }
    }
}

/// Decoding an encoded string gives the string back and leaves exactly the
/// bytes that followed it.
pub proof fn lemma_dec_enc_str(s: Seq<char>, rest: Seq<u8>)
    requires
        str_fits(s),
    ensures
        dec_str(enc_str(s) + rest) == Some((s, rest)),
{
    let u = encode_utf8(s);
    let n = u.len() as int;
    let b = enc_str(s) + rest;
    assert(b.subrange(0, 4) =~= be32_bytes(n as u32));
    lemma_be32_round_trip(n as u32);
    assert(b.subrange(4, 4 + n) =~= u);
    encode_utf8_valid_utf8(s);
    encode_utf8_decode_utf8(s);
    assert(b.skip(4 + n) =~= rest);
}

/// The tag byte that starts each client request.
pub open spec fn c2s_tag(m: ClientToServerView) -> u8 {
    match m {
        ClientToServerView::Register { .. } => 0u8,
        ClientToServerView::ListUsers => 1u8,
        ClientToServerView::SendMessage { .. } => 2u8,
        ClientToServerView::GetMessages { .. } => 3u8,
    }
}

/// A client request all of whose strings fit their length prefixes.
pub open spec fn c2s_fits(m: ClientToServerView) -> bool {
    match m {
        ClientToServerView::Register { handle } => str_fits(handle),
        ClientToServerView::ListUsers => true,
        ClientToServerView::SendMessage { content, target } => str_fits(content) && str_fits(
            target,
        ),
        ClientToServerView::GetMessages { target } => str_fits(target),
    }
}

/// The encoding of one client request.
pub open spec fn enc_c2s(m: ClientToServerView) -> Seq<u8>
    recommends
        c2s_fits(m),
{
    match m {
        ClientToServerView::Register { handle } => seq![0u8] + enc_str(handle),
        ClientToServerView::ListUsers => seq![1u8],
        ClientToServerView::SendMessage { content, target } => seq![2u8] + enc_str(content)
            + enc_str(target),
        ClientToServerView::GetMessages { target } => seq![3u8] + enc_str(target),
    }
}

/// Decodes one client request from the whole of `b`, or `None` when `b` is
/// not the encoding of any request.
pub open spec fn dec_c2s(b: Seq<u8>) -> Option<ClientToServerView> {
    if b.len() < 1 {
        None
    } else {
        let rest = b.skip(1);
        if b[0] == 0u8 {
            match dec_str(rest) {
                Some((handle, r)) => if r.len() == 0 {
                    Some(ClientToServerView::Register { handle })
                } else {
                    None
                },
                None => None,
            }
        } else if b[0] == 1u8 {
            if rest.len() == 0 {
                Some(ClientToServerView::ListUsers)
            } else {
                None
            }
        } else if b[0] == 2u8 {
            match dec_str(rest) {
                Some((content, r)) => match dec_str(r) {
                    Some((target, r2)) => if r2.len() == 0 {
                        Some(ClientToServerView::SendMessage { content, target })
                    } else {
                        None
                    },
                    None => None,
                },
                None => None,
            }
        } else if b[0] == 3u8 {
            match dec_str(rest) {
                Some((target, r)) => if r.len() == 0 {
                    Some(ClientToServerView::GetMessages { target })
                } else {
                    None
                },
                None => None,
            }
        } else {
            None
        }
    }
}

/// Decoding a payload fails when it is not a valid encoding of the
/// expected message set.
#[derive(Debug, Clone, PartialEq, Eq)]
pub struct DecodeError;

/// Relies on String::from_utf8: it succeeds exactly on valid UTF-8 input,
/// and the returned string's UTF-8 bytes are the input bytes.
#[verifier::external_body]
fn string_from_utf8(v: Vec<u8>) -> (r: Option<String>)
    ensures
        r is Some <==> valid_utf8(v@),
        r matches Some(s) ==> encode_utf8(s@) == v@,
{
    String::from_utf8(v).ok()
}

/// Appends the encoding of `s` to `out`; leaves `out` alone and reports
/// failure when `s` does not fit its length prefix.
fn push_str(out: &mut Vec<u8>, s: &str) -> (ok: bool)
    ensures
        ok <==> str_fits(s@),
        ok ==> final(out)@ == old(out)@ + enc_str(s@),
        !ok ==> final(out)@ == old(out)@,
{
    let b = s.as_bytes_vec();
    if b.len() > 0xFFFF_FFFFusize {
        return false;
    }
    let n: u32 = b.len() as u32;
    let prefix = crate::wire::u32_to_be(n);
    out.extend_from_slice(prefix.as_slice());
    out.extend_from_slice(b.as_slice());
    proof {
        assert(out@ =~= old(out)@ + enc_str(s@));
    }
    true
}

/// Reads one encoded string starting at `pos`: the string and the position
/// just past it.
fn read_str(b: &[u8], pos: usize) -> (r: Option<(String, usize)>)
    requires
        pos <= b@.len(),
    ensures
        r is None ==> dec_str(b@.skip(pos as int)) is None,
        r matches Some((s, p2)) ==> {
            &&& pos <= p2 <= b@.len()
            &&& dec_str(b@.skip(pos as int)) == Some((s@, b@.skip(p2 as int)))
        },
{
    let len = b.len();
    if len - pos < 4 {
        return None;
    }
    let b0 = *vstd::slice::slice_index_get(b, pos);
    let b1 = *vstd::slice::slice_index_get(b, pos + 1);
    let b2 = *vstd::slice::slice_index_get(b, pos + 2);
    let b3 = *vstd::slice::slice_index_get(b, pos + 3);
    let n32: u32 = ((b0 as u32) << 24) | ((b1 as u32) << 16) | ((b2 as u32) << 8) | (b3 as u32);
    let n = n32 as usize;
    proof {
        assert(b@.skip(pos as int).subrange(0, 4) =~= seq![b0, b1, b2, b3]);
    }
    if len - pos - 4 < n {
        return None;
    }
    let payload = vstd::slice::slice_to_vec(vstd::slice::slice_subrange(b, pos + 4, pos + 4 + n));
    proof {
        assert(payload@ =~= b@.skip(pos as int).subrange(4, 4 + n as int));
    }
    match string_from_utf8(payload) {
        None => None,
        Some(s) => {
            proof {
                encode_utf8_decode_utf8(s@);
                assert(b@.skip(pos as int).skip(4 + n as int) =~= b@.skip(pos + 4 + n));
            }
            Some((s, pos + 4 + n))
        },
    }
}

/// Encodes one client request, or `None` when a string in it is too long
/// for its length prefix.
pub fn encode_client_msg(m: &ClientToServer) -> (r: Option<Vec<u8>>)
    ensures
        r is Some <==> c2s_fits(m@),
        r matches Some(v) ==> v@ == enc_c2s(m@),
{
    let mut out: Vec<u8> = Vec::new();
    match m {
        ClientToServer::Register { handle } => {
            out.push(0u8);
            if !push_str(&mut out, handle.as_str()) {
                return None;
            }
        },
        ClientToServer::ListUsers => {
            out.push(1u8);
        },
        ClientToServer::SendMessage { content, target } => {
            out.push(2u8);
            if !push_str(&mut out, content.as_str()) {
                return None;
            }
            if !push_str(&mut out, target.as_str()) {
                return None;
            }
        },
        ClientToServer::GetMessages { target } => {
            out.push(3u8);
            if !push_str(&mut out, target.as_str()) {
                return None;
            }
        },
    }
    proof {
        assert(out@ =~= enc_c2s(m@));
    }
    Some(out)
}

/// Decodes one client request from a whole frame payload: `Ok` exactly when
/// the payload is the encoding of some request, and then of that request.
pub fn decode_client_msg(b: &[u8]) -> (r: Result<ClientToServer, DecodeError>)
    ensures
        r is Ok <==> dec_c2s(b@) is Some,
        r matches Ok(m) ==> Some(m@) == dec_c2s(b@),
{
    if b.len() < 1 {
        return Err(DecodeError);
    }
    let tag = *vstd::slice::slice_index_get(b, 0);
    if tag == 0u8 {
        match read_str(b, 1) {
            Some((handle, p)) => {
                if p == b.len() {
                    Ok(ClientToServer::Register { handle })
                } else {
                    proof {
                        assert(b@.skip(p as int).len() > 0);
                    }
                    Err(DecodeError)
                }
            },
            None => Err(DecodeError),
        }
    } else if tag == 1u8 {
        if b.len() == 1 {
            Ok(ClientToServer::ListUsers)
        } else {
            Err(DecodeError)
        }
    } else if tag == 2u8 {
        match read_str(b, 1) {
            Some((content, p)) => match read_str(b, p) {
                Some((target, p2)) => {
                    if p2 == b.len() {
                        Ok(ClientToServer::SendMessage { content, target })
                    } else {
                        proof {
                            assert(b@.skip(p2 as int).len() > 0);
                        }
                        Err(DecodeError)
                    }
                },
                None => Err(DecodeError),
            },
            None => Err(DecodeError),
        }
    } else if tag == 3u8 {
        match read_str(b, 1) {
            Some((target, p)) => {
                if p == b.len() {
                    Ok(ClientToServer::GetMessages { target })
                } else {
                    proof {
                        assert(b@.skip(p as int).len() > 0);
                    }
                    Err(DecodeError)
                }
            },
            None => Err(DecodeError),
        }
    } else {
        Err(DecodeError)
    }
}

/// Decoding the encoding of a client request gives the request back.
pub proof fn lemma_c2s_round_trip(m: ClientToServerView)
    requires
        c2s_fits(m),
    ensures
        dec_c2s(enc_c2s(m)) == Some(m),
{
    let b = enc_c2s(m);
    match m {
        ClientToServerView::Register { handle } => {
            assert(b[0] == 0u8);
            assert(b.skip(1) =~= enc_str(handle) + Seq::<u8>::empty());
            lemma_dec_enc_str(handle, Seq::empty());
        },
        ClientToServerView::ListUsers => {
            assert(b[0] == 1u8);
            assert(b.skip(1).len() == 0);
        },
        ClientToServerView::SendMessage { content, target } => {
            assert(b[0] == 2u8);
            assert(b.skip(1) =~= enc_str(content) + (enc_str(target) + Seq::<u8>::empty()));
            lemma_dec_enc_str(content, enc_str(target) + Seq::<u8>::empty());
            lemma_dec_enc_str(target, Seq::empty());
        },
        ClientToServerView::GetMessages { target } => {
            assert(b[0] == 3u8);
            assert(b.skip(1) =~= enc_str(target) + Seq::<u8>::empty());
            lemma_dec_enc_str(target, Seq::empty());
        },
    }
}

/// The encoding of one chat message: its sender, then its content.
pub open spec fn enc_msg(m: MessageView) -> Seq<u8> {
    enc_str(m.sender) + enc_str(m.content)
}

/// A chat message both of whose strings fit their length prefixes.
pub open spec fn msg_fits(m: MessageView) -> bool {
    str_fits(m.sender) && str_fits(m.content)
}

/// The encodings of the given strings, one after the other.
pub open spec fn enc_str_items(ss: Seq<Seq<char>>) -> Seq<u8>
    decreases ss.len(),
{
    if ss.len() == 0 {
        Seq::empty()
    } else {
        enc_str(ss[0]) + enc_str_items(ss.drop_first())
    }
}

/// The encodings of the given messages, one after the other.
pub open spec fn enc_msg_items(ms: Seq<MessageView>) -> Seq<u8>
    decreases ms.len(),
{
    if ms.len() == 0 {
        Seq::empty()
    } else {
        enc_msg(ms[0]) + enc_msg_items(ms.drop_first())
    }
}

/// Every string in the list fits its length prefix.
pub open spec fn strs_fit(ss: Seq<Seq<char>>) -> bool {
    forall|i: int| 0 <= i < ss.len() ==> str_fits(ss[i])
}

/// Every message in the list fits its length prefixes.
pub open spec fn msgs_fit(ms: Seq<MessageView>) -> bool {
    forall|i: int| 0 <= i < ms.len() ==> msg_fits(ms[i])
}

/// Appending one more string extends the item encoding on the right.
pub proof fn lemma_enc_str_items_push(ss: Seq<Seq<char>>, s: Seq<char>)
    ensures
        enc_str_items(ss.push(s)) == enc_str_items(ss) + enc_str(s),
    decreases ss.len(),
{
    if ss.len() == 0 {
        assert(ss.push(s)[0] == s);
        assert(ss.push(s).drop_first() =~= Seq::<Seq<char>>::empty());
        assert(enc_str_items(ss.push(s)) == enc_str(s) + enc_str_items(
            Seq::<Seq<char>>::empty(),
        ));
        assert(enc_str_items(Seq::<Seq<char>>::empty()) == Seq::<u8>::empty());
        assert(enc_str_items(ss.push(s)) =~= enc_str_items(ss) + enc_str(s));
    } else {
        assert(ss.push(s).drop_first() =~= ss.drop_first().push(s));
        lemma_enc_str_items_push(ss.drop_first(), s);
        assert(ss.push(s)[0] == ss[0]);
        assert(enc_str(ss[0]) + (enc_str_items(ss.drop_first()) + enc_str(s)) =~= (enc_str(ss[0])
            + enc_str_items(ss.drop_first())) + enc_str(s));
    }
}

/// Appending one more message extends the item encoding on the right.
pub proof fn lemma_enc_msg_items_push(ms: Seq<MessageView>, m: MessageView)
    ensures
        enc_msg_items(ms.push(m)) == enc_msg_items(ms) + enc_msg(m),
    decreases ms.len(),
{
    if ms.len() == 0 {
        assert(ms.push(m)[0] == m);
        assert(ms.push(m).drop_first() =~= Seq::<MessageView>::empty());
        assert(enc_msg_items(ms.push(m)) == enc_msg(m) + enc_msg_items(
            Seq::<MessageView>::empty(),
        ));
        assert(enc_msg_items(Seq::<MessageView>::empty()) == Seq::<u8>::empty());
        assert(enc_msg_items(ms.push(m)) =~= enc_msg_items(ms) + enc_msg(m));
    } else {
        assert(ms.push(m).drop_first() =~= ms.drop_first().push(m));
        lemma_enc_msg_items_push(ms.drop_first(), m);
        assert(ms.push(m)[0] == ms[0]);
        assert(enc_msg(ms[0]) + (enc_msg_items(ms.drop_first()) + enc_msg(m)) =~= (enc_msg(ms[0])
            + enc_msg_items(ms.drop_first())) + enc_msg(m));
    }
}

/// Decodes one chat message from the front of `b`.
pub open spec fn dec_msg(b: Seq<u8>) -> Option<(MessageView, Seq<u8>)> {
    match dec_str(b) {
        Some((sender, r)) => match dec_str(r) {
            Some((content, r2)) => Some((MessageView { sender, content }, r2)),
            None => None,
        },
        None => None,
    }
}

/// Decodes `n` strings from the front of `b`.
pub open spec fn dec_str_items(b: Seq<u8>, n: nat) -> Option<(Seq<Seq<char>>, Seq<u8>)>
    decreases n,
{
    if n == 0 {
        Some((Seq::empty(), b))
    } else {
        match dec_str(b) {
            Some((s, r)) => match dec_str_items(r, (n - 1) as nat) {
                Some((ss, r2)) => Some((seq![s] + ss, r2)),
                None => None,
            },
            None => None,
        }
    }
}

/// Decodes `n` chat messages from the front of `b`.
pub open spec fn dec_msg_items(b: Seq<u8>, n: nat) -> Option<(Seq<MessageView>, Seq<u8>)>
    decreases n,
{
    if n == 0 {
        Some((Seq::empty(), b))
    } else {
        match dec_msg(b) {
            Some((m, r)) => match dec_msg_items(r, (n - 1) as nat) {
                Some((ms, r2)) => Some((seq![m] + ms, r2)),
                None => None,
            },
            None => None,
        }
    }
}

/// Decoding an encoded message gives it back with the bytes that follow.
pub proof fn lemma_dec_enc_msg(m: MessageView, rest: Seq<u8>)
    requires
        msg_fits(m),
    ensures
        dec_msg(enc_msg(m) + rest) == Some((m, rest)),
{
    assert(enc_msg(m) + rest =~= enc_str(m.sender) + (enc_str(m.content) + rest));
    lemma_dec_enc_str(m.sender, enc_str(m.content) + rest);
    lemma_dec_enc_str(m.content, rest);
}

/// Decoding the encodings of `ss` gives `ss` back with the bytes that follow.
pub proof fn lemma_dec_enc_str_items(ss: Seq<Seq<char>>, rest: Seq<u8>)
    requires
        strs_fit(ss),
    ensures
        dec_str_items(enc_str_items(ss) + rest, ss.len()) == Some((ss, rest)),
    decreases ss.len(),
{
    if ss.len() == 0 {
        assert(enc_str_items(ss) + rest =~= rest);
        assert(ss =~= Seq::<Seq<char>>::empty());
    } else {
        let tail = ss.drop_first();
        assert(enc_str_items(ss) + rest =~= enc_str(ss[0]) + (enc_str_items(tail) + rest));
        lemma_dec_enc_str(ss[0], enc_str_items(tail) + rest);
        assert(strs_fit(tail)) by {
            assert(forall|i: int| 0 <= i < tail.len() ==> tail[i] == ss[i + 1]);
        }
        lemma_dec_enc_str_items(tail, rest);
        assert(seq![ss[0]] + tail =~= ss);
    }
}

/// Decoding the encodings of `ms` gives `ms` back with the bytes that follow.
pub proof fn lemma_dec_enc_msg_items(ms: Seq<MessageView>, rest: Seq<u8>)
    requires
        msgs_fit(ms),
    ensures
        dec_msg_items(enc_msg_items(ms) + rest, ms.len()) == Some((ms, rest)),
    decreases ms.len(),
{
    if ms.len() == 0 {
        assert(enc_msg_items(ms) + rest =~= rest);
        assert(ms =~= Seq::<MessageView>::empty());
    } else {
        let tail = ms.drop_first();
        assert(enc_msg_items(ms) + rest =~= enc_msg(ms[0]) + (enc_msg_items(tail) + rest));
        lemma_dec_enc_msg(ms[0], enc_msg_items(tail) + rest);
        assert(msgs_fit(tail)) by {
            assert(forall|i: int| 0 <= i < tail.len() ==> tail[i] == ms[i + 1]);
        }
        lemma_dec_enc_msg_items(tail, rest);
        assert(seq![ms[0]] + tail =~= ms);
    }
}

/// A server reply all of whose strings and lists fit their prefixes.
pub open spec fn s2c_fits(m: ServerToClientView) -> bool {
    match m {
        ServerToClientView::Registered { handle } => str_fits(handle),
        ServerToClientView::UserList { users } => users.len() <= u32::MAX && strs_fit(users),
        ServerToClientView::ChatMessages { partner, messages } => str_fits(partner)
            && messages.len() <= u32::MAX && msgs_fit(messages),
        ServerToClientView::ChatMessage { sender, content } => str_fits(sender) && str_fits(
            content,
        ),
        ServerToClientView::Error { message } => str_fits(message),
    }
}

/// The encoding of one server reply.
pub open spec fn enc_s2c(m: ServerToClientView) -> Seq<u8>
    recommends
        s2c_fits(m),
{
    match m {
        ServerToClientView::Registered { handle } => seq![0u8] + enc_str(handle),
        ServerToClientView::UserList { users } => seq![1u8] + be32_bytes(users.len() as u32)
            + enc_str_items(users),
        ServerToClientView::ChatMessages { partner, messages } => seq![2u8] + enc_str(partner)
            + be32_bytes(messages.len() as u32) + enc_msg_items(messages),
        ServerToClientView::ChatMessage { sender, content } => seq![3u8] + enc_str(sender)
            + enc_str(content),
        ServerToClientView::Error { message } => seq![4u8] + enc_str(message),
    }
}

/// Decodes one server reply from the whole of `b`, or `None` when `b` is
/// not the encoding of any reply.
pub open spec fn dec_s2c(b: Seq<u8>) -> Option<ServerToClientView> {
    if b.len() < 1 {
        None
    } else {
        let rest = b.skip(1);
        if b[0] == 0u8 {
            match dec_str(rest) {
                Some((handle, r)) => if r.len() == 0 {
                    Some(ServerToClientView::Registered { handle })
                } else {
                    None
                },
                None => None,
            }
        } else if b[0] == 1u8 {
            if rest.len() < 4 {
                None
            } else {
                let n = be32_value(rest.subrange(0, 4));
                match dec_str_items(rest.skip(4), n as nat) {
                    Some((users, r)) => if r.len() == 0 {
                        Some(ServerToClientView::UserList { users })
                    } else {
                        None
                    },
                    None => None,
                }
            }
        } else if b[0] == 2u8 {
            match dec_str(rest) {
                Some((partner, r)) => if r.len() < 4 {
                    None
                } else {
                    let n = be32_value(r.subrange(0, 4));
                    match dec_msg_items(r.skip(4), n as nat) {
                        Some((messages, r2)) => if r2.len() == 0 {
                            Some(ServerToClientView::ChatMessages { partner, messages })
                        } else {
                            None
                        },
                        None => None,
                    }
                },
                None => None,
            }
        } else if b[0] == 3u8 {
            match dec_str(rest) {
                Some((sender, r)) => match dec_str(r) {
                    Some((content, r2)) => if r2.len() == 0 {
                        Some(ServerToClientView::ChatMessage { sender, content })
                    } else {
                        None
                    },
                    None => None,
                },
                None => None,
            }
        } else if b[0] == 4u8 {
            match dec_str(rest) {
                Some((message, r)) => if r.len() == 0 {
                    Some(ServerToClientView::Error { message })
                } else {
                    None
                },
                None => None,
            }
        } else {
            None
        }
    }
}

/// Appends the encoding of `m` to `out`, reporting failure when a string in
/// it does not fit its length prefix.
fn push_msg(out: &mut Vec<u8>, m: &Message) -> (ok: bool)
    ensures
        ok <==> msg_fits(m@),
        ok ==> final(out)@ == old(out)@ + enc_msg(m@),
{
    let first = push_str(out, m.sender.as_str());
    if !first {
        return false;
    }
    push_str(out, m.content.as_str())
}

/// Encodes one server reply, or `None` when a string or list in it is too
/// long for its length prefix.
#[verifier::loop_isolation(false)]
pub fn encode_server_msg(m: &ServerToClient) -> (r: Option<Vec<u8>>)
    ensures
        r is Some <==> s2c_fits(m@),
        r matches Some(v) ==> v@ == enc_s2c(m@),
{
    let mut out: Vec<u8> = Vec::new();
    match m {
        ServerToClient::Registered { handle } => {
            out.push(0u8);
            if !push_str(&mut out, handle.as_str()) {
                return None;
            }
        },
        ServerToClient::UserList { users } => {
            out.push(1u8);
            if users.len() > 0xFFFF_FFFFusize {
                proof {
                    assert(users.deep_view().len() == users@.len());
                    assert(!s2c_fits(m@));
                }
                return None;
            }
            let prefix = crate::wire::u32_to_be(users.len() as u32);
            out.extend_from_slice(prefix.as_slice());
            let ghost views = users.deep_view();
            let ghost base = out@;
            proof {
                assert(base =~= seq![1u8] + be32_bytes(users@.len() as u32));
                assert(views.take(0) =~= Seq::<Seq<char>>::empty());
            }
            let n = users.len();
            let mut i: usize = 0;
            while i < n
                invariant
                    n == users@.len(),
                    i <= n,
                    views == users.deep_view(),
                    out@ == base + enc_str_items(views.take(i as int)),
                    strs_fit(views.take(i as int)),
                decreases n - i,
            {
                if !push_str(&mut out, users[i].as_str()) {
                    proof {
                        assert(views[i as int] == users@[i as int]@);
                        assert(!strs_fit(views));
                    }
                    return None;
                }
                proof {
                    assert(views.take(i + 1) =~= views.take(i as int).push(views[i as int]));
                    lemma_enc_str_items_push(views.take(i as int), views[i as int]);
                    assert(strs_fit(views.take(i + 1)));
                }
                i = i + 1;
            }
            proof {
                assert(views.take(n as int) =~= views);
                assert(out@ =~= enc_s2c(m@));
            }
        },
        ServerToClient::ChatMessages { partner, messages } => {
            out.push(2u8);
            if !push_str(&mut out, partner.as_str()) {
                return None;
            }
            if messages.len() > 0xFFFF_FFFFusize {
                proof {
                    assert(crate::protocol::messages_view(messages@).len() == messages@.len());
                    assert(!s2c_fits(m@));
                }
                return None;
            }
            let prefix = crate::wire::u32_to_be(messages.len() as u32);
            out.extend_from_slice(prefix.as_slice());
            let ghost views = crate::protocol::messages_view(messages@);
            let ghost base = out@;
            proof {
                assert(base =~= seq![2u8] + enc_str(partner@) + be32_bytes(
                    messages@.len() as u32,
                ));
                assert(views.take(0) =~= Seq::<MessageView>::empty());
            }
            let n = messages.len();
            let mut i: usize = 0;
            while i < n
                invariant
                    n == messages@.len(),
                    i <= n,
                    views == crate::protocol::messages_view(messages@),
                    out@ == base + enc_msg_items(views.take(i as int)),
                    msgs_fit(views.take(i as int)),
                decreases n - i,
            {
                if !push_msg(&mut out, &messages[i]) {
                    proof {
                        assert(views[i as int] == messages@[i as int]@);
                        assert(!msgs_fit(views));
                    }
                    return None;
                }
                proof {
                    assert(views.take(i + 1) =~= views.take(i as int).push(views[i as int]));
                    lemma_enc_msg_items_push(views.take(i as int), views[i as int]);
                    assert(msgs_fit(views.take(i + 1)));
                }
                i = i + 1;
            }
            proof {
                assert(views.take(n as int) =~= views);
                assert(out@ =~= enc_s2c(m@));
            }
        },
        ServerToClient::ChatMessage { sender, content } => {
            out.push(3u8);
            if !push_str(&mut out, sender.as_str()) {
                return None;
            }
            if !push_str(&mut out, content.as_str()) {
                return None;
            }
        },
        ServerToClient::Error { message } => {
            out.push(4u8);
            if !push_str(&mut out, message.as_str()) {
                return None;
            }
        },
    }
    proof {
        assert(out@ =~= enc_s2c(m@));
    }
    Some(out)
}

/// Reads a 4-byte big-endian count starting at `pos`.
fn read_u32(b: &[u8], pos: usize) -> (r: Option<(u32, usize)>)
    requires
        pos <= b@.len(),
    ensures
        r is None <==> b@.len() - pos < 4,
        r matches Some((v, p2)) ==> {
            &&& p2 == pos + 4
            &&& p2 <= b@.len()
            &&& v == be32_value(b@.skip(pos as int).subrange(0, 4))
        },
{
    if b.len() - pos < 4 {
        return None;
    }
    let b0 = *vstd::slice::slice_index_get(b, pos);
    let b1 = *vstd::slice::slice_index_get(b, pos + 1);
    let b2 = *vstd::slice::slice_index_get(b, pos + 2);
    let b3 = *vstd::slice::slice_index_get(b, pos + 3);
    let v: u32 = ((b0 as u32) << 24) | ((b1 as u32) << 16) | ((b2 as u32) << 8) | (b3 as u32);
    proof {
        assert(b@.skip(pos as int).subrange(0, 4) =~= seq![b0, b1, b2, b3]);
    }
    Some((v, pos + 4))
}

/// Reads one encoded chat message starting at `pos`.
fn read_msg(b: &[u8], pos: usize) -> (r: Option<(Message, usize)>)
    requires
        pos <= b@.len(),
    ensures
        r is None ==> dec_msg(b@.skip(pos as int)) is None,
        r matches Some((m, p2)) ==> {
            &&& pos <= p2 <= b@.len()
            &&& dec_msg(b@.skip(pos as int)) == Some((m@, b@.skip(p2 as int)))
        },
{
    match read_str(b, pos) {
        None => None,
        Some((sender, p)) => match read_str(b, p) {
            None => None,
            Some((content, p2)) => Some((Message { sender, content }, p2)),
        },
    }
}

/// Reads `n` encoded strings starting at `pos`.
fn read_strs(b: &[u8], pos: usize, n: u32) -> (r: Option<(Vec<String>, usize)>)
    requires
        pos <= b@.len(),
    ensures
        r is None ==> dec_str_items(b@.skip(pos as int), n as nat) is None,
        r matches Some((v, p2)) ==> {
            &&& pos <= p2 <= b@.len()
            &&& dec_str_items(b@.skip(pos as int), n as nat) == Some((
                v.deep_view(),
                b@.skip(p2 as int),
            ))
        },
{
    let mut acc: Vec<String> = Vec::new();
    let mut p: usize = pos;
    let mut i: u32 = 0;
    while i < n
        invariant
            i <= n,
            pos <= p <= b@.len(),
            dec_str_items(b@.skip(pos as int), n as nat) == (match dec_str_items(
                b@.skip(p as int),
                (n - i) as nat,
            ) {
                Some((ss, r)) => Some::<(Seq<Seq<char>>, Seq<u8>)>((acc.deep_view() + ss, r)),
                None => None::<(Seq<Seq<char>>, Seq<u8>)>,
            }),
        decreases n - i,
    {
        match read_str(b, p) {
            None => {
                return None;
            },
            Some((s, p2)) => {
                proof {
                    let prev = acc.deep_view();
                    let inner = dec_str_items(b@.skip(p2 as int), (n - i - 1) as nat);
                    if inner is Some {
                        let pair = inner->0;
                        assert(prev + (seq![s@] + pair.0) =~= prev.push(s@) + pair.0);
                    }
                }
                let ghost prev_acc = acc.deep_view();
                acc.push(s);
                proof {
                    assert(acc.deep_view() =~= prev_acc.push(acc@.last()@));
                }
                p = p2;
                i = i + 1;
            },
        }
    }
    proof {
        assert(acc.deep_view() + Seq::<Seq<char>>::empty() =~= acc.deep_view());
    }
    Some((acc, p))
}

/// Reads `n` encoded chat messages starting at `pos`.
fn read_msgs(b: &[u8], pos: usize, n: u32) -> (r: Option<(Vec<Message>, usize)>)
    requires
        pos <= b@.len(),
    ensures
        r is None ==> dec_msg_items(b@.skip(pos as int), n as nat) is None,
        r matches Some((v, p2)) ==> {
            &&& pos <= p2 <= b@.len()
            &&& dec_msg_items(b@.skip(pos as int), n as nat) == Some((
                crate::protocol::messages_view(v@),
                b@.skip(p2 as int),
            ))
        },
{
    let mut acc: Vec<Message> = Vec::new();
    let mut p: usize = pos;
    let mut i: u32 = 0;
    while i < n
        invariant
            i <= n,
            pos <= p <= b@.len(),
            dec_msg_items(b@.skip(pos as int), n as nat) == (match dec_msg_items(
                b@.skip(p as int),
                (n - i) as nat,
            ) {
                Some((ms, r)) => Some::<(Seq<MessageView>, Seq<u8>)>((
                    crate::protocol::messages_view(acc@) + ms,
                    r,
                )),
                None => None::<(Seq<MessageView>, Seq<u8>)>,
            }),
        decreases n - i,
    {
        match read_msg(b, p) {
            None => {
                return None;
            },
            Some((m, p2)) => {
                proof {
                    let prev = crate::protocol::messages_view(acc@);
                    let inner = dec_msg_items(b@.skip(p2 as int), (n - i - 1) as nat);
                    if inner is Some {
                        let pair = inner->0;
                        assert(prev + (seq![m@] + pair.0) =~= prev.push(m@) + pair.0);
                    }
                }
                let ghost prev_acc = crate::protocol::messages_view(acc@);
                acc.push(m);
                proof {
                    assert(crate::protocol::messages_view(acc@) =~= prev_acc.push(
                        acc@.last()@,
                    ));
                }
                p = p2;
                i = i + 1;
            },
        }
    }
    proof {
        assert(crate::protocol::messages_view(acc@) + Seq::<MessageView>::empty()
            =~= crate::protocol::messages_view(acc@));
    }
    Some((acc, p))
}

/// Decodes one server reply from a whole frame payload: `Ok` exactly when
/// the payload is the encoding of some reply, and then of that reply.
pub fn decode_server_msg(b: &[u8]) -> (r: Result<ServerToClient, DecodeError>)
    ensures
        r is Ok <==> dec_s2c(b@) is Some,
        r matches Ok(m) ==> Some(m@) == dec_s2c(b@),
{
    if b.len() < 1 {
        return Err(DecodeError);
    }
    let tag = *vstd::slice::slice_index_get(b, 0);
    if tag == 0u8 {
        match read_str(b, 1) {
            Some((handle, p)) => {
                if p == b.len() {
                    Ok(ServerToClient::Registered { handle })
                } else {
                    proof {
                        assert(b@.skip(p as int).len() > 0);
                    }
                    Err(DecodeError)
                }
            },
            None => Err(DecodeError),
        }
    } else if tag == 1u8 {
        match read_u32(b, 1) {
            None => {
                proof {
                    assert(b@.skip(1).len() < 4);
                }
                Err(DecodeError)
            },
            Some((n, p0)) => {
                proof {
                    assert(b@.skip(1).subrange(0, 4) =~= b@.skip(1).subrange(0, 4));
                    assert(b@.skip(1).skip(4) =~= b@.skip(p0 as int));
                }
                match read_strs(b, p0, n) {
                    None => Err(DecodeError),
                    Some((users, p)) => {
                        if p == b.len() {
                            Ok(ServerToClient::UserList { users })
                        } else {
                            proof {
                                assert(b@.skip(p as int).len() > 0);
                            }
                            Err(DecodeError)
                        }
                    },
                }
            },
        }
    } else if tag == 2u8 {
        match read_str(b, 1) {
            None => Err(DecodeError),
            Some((partner, p1)) => match read_u32(b, p1) {
                None => {
                    proof {
                        assert(b@.skip(p1 as int).len() < 4);
                    }
                    Err(DecodeError)
                },
                Some((n, p0)) => {
                    proof {
                        assert(b@.skip(p1 as int).skip(4) =~= b@.skip(p0 as int));
                    }
                    match read_msgs(b, p0, n) {
                        None => Err(DecodeError),
                        Some((messages, p)) => {
                            if p == b.len() {
                                Ok(ServerToClient::ChatMessages { partner, messages })
                            } else {
                                proof {
                                    assert(b@.skip(p as int).len() > 0);
                                }
                                Err(DecodeError)
                            }
                        },
                    }
                },
            },
        }
    } else if tag == 3u8 {
        match read_str(b, 1) {
            None => Err(DecodeError),
            Some((sender, p1)) => match read_str(b, p1) {
                None => Err(DecodeError),
                Some((content, p)) => {
                    if p == b.len() {
                        Ok(ServerToClient::ChatMessage { sender, content })
                    } else {
                        proof {
                            assert(b@.skip(p as int).len() > 0);
                        }
                        Err(DecodeError)
                    }
                },
            },
        }
    } else if tag == 4u8 {
        match read_str(b, 1) {
            Some((message, p)) => {
                if p == b.len() {
                    Ok(ServerToClient::Error { message })
                } else {
                    proof {
                        assert(b@.skip(p as int).len() > 0);
                    }
                    Err(DecodeError)
                }
            },
            None => Err(DecodeError),
        }
    } else {
        Err(DecodeError)
    }
}

/// Decoding the encoding of a server reply gives the reply back.
#[verifier::rlimit(60)]
pub proof fn lemma_s2c_round_trip(m: ServerToClientView)
    requires
        s2c_fits(m),
    ensures
        dec_s2c(enc_s2c(m)) == Some(m),
{
    let b = enc_s2c(m);
    match m {
        ServerToClientView::Registered { handle } => {
            assert(b[0] == 0u8);
            assert(b.skip(1) =~= enc_str(handle) + Seq::<u8>::empty());
            lemma_dec_enc_str(handle, Seq::empty());
        },
        ServerToClientView::UserList { users } => {
            assert(b[0] == 1u8);
            let rest = b.skip(1);
            assert(rest =~= be32_bytes(users.len() as u32) + enc_str_items(users));
            assert(rest.subrange(0, 4) =~= be32_bytes(users.len() as u32));
            lemma_be32_round_trip(users.len() as u32);
            assert(rest.skip(4) =~= enc_str_items(users) + Seq::<u8>::empty());
            lemma_dec_enc_str_items(users, Seq::empty());
        },
        ServerToClientView::ChatMessages { partner, messages } => {
            assert(b[0] == 2u8);
            let rest = b.skip(1);
            let after = be32_bytes(messages.len() as u32) + enc_msg_items(messages);
            assert(rest =~= enc_str(partner) + after);
            lemma_dec_enc_str(partner, after);
            assert(after.subrange(0, 4) =~= be32_bytes(messages.len() as u32));
            lemma_be32_round_trip(messages.len() as u32);
            assert(after.skip(4) =~= enc_msg_items(messages) + Seq::<u8>::empty());
            lemma_dec_enc_msg_items(messages, Seq::empty());
        },
        ServerToClientView::ChatMessage { sender, content } => {
            assert(b[0] == 3u8);
            assert(b.skip(1) =~= enc_str(sender) + (enc_str(content) + Seq::<u8>::empty()));
            lemma_dec_enc_str(sender, enc_str(content) + Seq::<u8>::empty());
            lemma_dec_enc_str(content, Seq::empty());
        },
        ServerToClientView::Error { message } => {
            assert(b[0] == 4u8);
            assert(b.skip(1) =~= enc_str(message) + Seq::<u8>::empty());
            lemma_dec_enc_str(message, Seq::empty());
        },
    }
}

} // verus!
