//! Length-prefixed framing: every message travels as a 4-byte big-endian
//! payload length followed by exactly that many payload bytes.

use vstd::prelude::*;

verus! {

/// The four bytes of `n`, most significant first.
pub open spec fn be32_bytes(n: u32) -> Seq<u8> {
    seq![(n >> 24) as u8, (n >> 16) as u8, (n >> 8) as u8, n as u8]
}

/// The value four big-endian bytes stand for.
pub open spec fn be32_value(b: Seq<u8>) -> u32
    recommends
        b.len() == 4,
{
    ((b[0] as u32) << 24) | ((b[1] as u32) << 16) | ((b[2] as u32) << 8) | (b[3] as u32)
}

/// Reading back the four bytes of a value gives the value.
pub proof fn lemma_be32_round_trip(n: u32)
    ensures
        be32_value(be32_bytes(n)) == n,
{
    assert((((n >> 24) as u8 as u32) << 24) | (((n >> 16) as u8 as u32) << 16) | (((n >> 8)
        as u8 as u32) << 8) | (n as u8 as u32) == n) by (bit_vector);
}

/// A payload can be framed only when its length fits the 4-byte prefix.
pub open spec fn payload_fits(payload: Seq<u8>) -> bool {
    payload.len() <= u32::MAX
}

/// One frame on the wire: the payload length, then the payload.
pub open spec fn frame_bytes(payload: Seq<u8>) -> Seq<u8>
    recommends
        payload_fits(payload),
{
    be32_bytes(payload.len() as u32) + payload
}

/// `b` starts with a length prefix and holds all the bytes it announces.
pub open spec fn has_complete_frame(b: Seq<u8>) -> bool {
    b.len() >= 4 && b.len() - 4 >= be32_value(b.subrange(0, 4))
}

/// How many bytes of `b` the first frame takes.
pub open spec fn spec_frame_size(b: Seq<u8>) -> int
    recommends
        has_complete_frame(b),
{
    4 + be32_value(b.subrange(0, 4))
}

/// The payload of the first frame in `b`.
pub open spec fn spec_frame_payload(b: Seq<u8>) -> Seq<u8>
    recommends
        has_complete_frame(b),
{
    b.subrange(4, spec_frame_size(b))
}

/// Framing a payload and reading the buffer back yields that payload,
/// whatever bytes follow the frame.
pub proof fn lemma_frame_round_trip(payload: Seq<u8>, rest: Seq<u8>)
    requires
        payload_fits(payload),
    ensures
        has_complete_frame(frame_bytes(payload) + rest),
        spec_frame_payload(frame_bytes(payload) + rest) == payload,
        spec_frame_size(frame_bytes(payload) + rest) == frame_bytes(payload).len(),
{
    let b = frame_bytes(payload) + rest;
    assert(b.subrange(0, 4) =~= be32_bytes(payload.len() as u32));
    lemma_be32_round_trip(payload.len() as u32);
    assert(b.subrange(4, 4 + payload.len() as int) =~= payload);
}

/// The length prefix for `n` payload bytes.
pub fn u32_to_be(n: u32) -> (r: Vec<u8>)
    ensures
        r@ == be32_bytes(n),
{
    let mut v: Vec<u8> = Vec::new();
    v.push((n >> 24) as u8);
    v.push((n >> 16) as u8);
    v.push((n >> 8) as u8);
    v.push(n as u8);
    proof {
        assert(v@ =~= be32_bytes(n));
    }
    v
}

/// Builds the wire frame for `payload`, or `None` when the payload is too
/// long for the 4-byte length prefix.
pub fn frame_msg(payload: &Vec<u8>) -> (r: Option<Vec<u8>>)
    ensures
        r is Some <==> payload_fits(payload@),
        r matches Some(f) ==> f@ == frame_bytes(payload@),
{
    if payload.len() > 0xFFFF_FFFFusize {
        return None;
    }
    let n: u32 = payload.len() as u32;
    let mut out = u32_to_be(n);
    out.extend_from_slice(payload.as_slice());
    Some(out)
}

/// What reading one frame from a buffer yields.
pub enum FrameRead {
    /// A complete frame: its payload, and how many leading bytes of the
    /// buffer it occupied.
    Frame { payload: Vec<u8>, used: usize },
    /// The buffer does not yet hold a complete frame.
    NeedMore,
}

/// Reads one frame from the front of `buf`: the 4-byte big-endian length,
/// then exactly that many payload bytes. Returns `NeedMore` while the buffer
/// is still short of a whole frame.
pub fn recv_msg(buf: &[u8]) -> (r: FrameRead)
    ensures
        r is NeedMore <==> !has_complete_frame(buf@),
        r matches FrameRead::Frame { payload, used } ==> {
            &&& payload@ == spec_frame_payload(buf@)
            &&& used == spec_frame_size(buf@)
        },
{
    if buf.len() < 4 {
        return FrameRead::NeedMore;
    }
    let b0 = *vstd::slice::slice_index_get(buf, 0);
    let b1 = *vstd::slice::slice_index_get(buf, 1);
    let b2 = *vstd::slice::slice_index_get(buf, 2);
    let b3 = *vstd::slice::slice_index_get(buf, 3);
    let n: u32 = ((b0 as u32) << 24) | ((b1 as u32) << 16) | ((b2 as u32) << 8) | (b3 as u32);
    proof {
        assert(buf@.subrange(0, 4) =~= seq![b0, b1, b2, b3]);
    }
    if buf.len() - 4 < n as usize {
        return FrameRead::NeedMore;
    }
    let used: usize = 4 + n as usize;
    let payload = vstd::slice::slice_to_vec(vstd::slice::slice_subrange(buf, 4, used));
    FrameRead::Frame { payload, used }
}

} // verus!
