//! Length-prefixed wire framing for stream transports: a frame is a 4-byte
//! big-endian payload length followed by the payload itself. Message-mode
//! transports carry whole messages and bypass this module.

use vstd::prelude::*;

use crate::ChannelError;

verus! {

/// Ceiling on a frame's payload length: a declared length above this is
/// rejected before any allocation, so a hostile peer cannot demand
/// unbounded memory.
pub const MAX_FRAME_PAYLOAD: usize = 65536;

/// The four big-endian bytes of a 32-bit length.
pub open spec fn be32(n: u32) -> Seq<u8> {
    seq![(n >> 24) as u8, (n >> 16) as u8, (n >> 8) as u8, n as u8]
}

/// The value of four big-endian bytes.
pub open spec fn be32_val(b: Seq<u8>) -> u32
    recommends
        b.len() == 4,
{
    ((b[0] as u32) << 24) | ((b[1] as u32) << 16) | ((b[2] as u32) << 8) | (b[3] as u32)
}

/// The frame that carries `payload`: its length, big-endian, then its bytes.
pub open spec fn frame_of(payload: Seq<u8>) -> Seq<u8> {
    be32(payload.len() as u32) + payload
}

proof fn lemma_be32_val_of_be32(n: u32)
    ensures
        be32_val(be32(n)) == n,
{
    assert((((((n >> 24) as u8) as u32) << 24) | ((((n >> 16) as u8) as u32) << 16) | ((((n
        >> 8) as u8) as u32) << 8) | ((n as u8) as u32)) == n) by (bit_vector);
}

proof fn lemma_be32_of_val(b: Seq<u8>)
    requires
        b.len() == 4,
    ensures
        be32(be32_val(b)) == b,
{
    let b0 = b[0];
    let b1 = b[1];
    let b2 = b[2];
    let b3 = b[3];
    let x = be32_val(b);
    assert(x == ((b0 as u32) << 24) | ((b1 as u32) << 16) | ((b2 as u32) << 8) | (b3 as u32));
    assert((x == ((b0 as u32) << 24) | ((b1 as u32) << 16) | ((b2 as u32) << 8) | (b3 as u32))
        ==> ((x >> 24) as u8 == b0 && (x >> 16) as u8 == b1 && (x >> 8) as u8 == b2 && x as u8
        == b3)) by (bit_vector);
    assert(be32(x) =~= b);
}

/// Distinct payloads never share a frame.
pub proof fn lemma_frame_of_injective(p1: Seq<u8>, p2: Seq<u8>)
    requires
        p1.len() <= 0xFFFF_FFFF,
        p2.len() <= 0xFFFF_FFFF,
        frame_of(p1) == frame_of(p2),
    ensures
        p1 == p2,
{
    lemma_be32_val_of_be32(p1.len() as u32);
    lemma_be32_val_of_be32(p2.len() as u32);
    assert(frame_of(p1).take(4) =~= be32(p1.len() as u32));
    assert(frame_of(p2).take(4) =~= be32(p2.len() as u32));
    assert(p1 =~= frame_of(p1).skip(4));
    assert(p2 =~= frame_of(p2).skip(4));
}

/// Builds the frame for `payload`. The only bound here is the 32-bit length
/// field itself; the receive-side ceiling is enforced by the reader.
pub fn encode_frame(payload: &[u8]) -> (r: Vec<u8>)
    requires
        payload@.len() <= 0xFFFF_FFFF,
    ensures
        r@ == frame_of(payload@),
        r@.len() == payload@.len() + 4,
{
    let n = payload.len() as u32;
    let mut out: Vec<u8> = Vec::new();
    out.push((n >> 24) as u8);
    out.push((n >> 16) as u8);
    out.push((n >> 8) as u8);
    out.push(n as u8);
    let mut tail = vstd::slice::slice_to_vec(payload);
    out.append(&mut tail);
    proof {
        assert(out@ =~= frame_of(payload@));
    }
    out
}

/// Reads the payload length out of a 4-byte frame header, enforcing the
/// ceiling: `Ok` exactly when the declared length is within bounds.
pub fn frame_payload_len(header: &[u8]) -> (r: Result<usize, ChannelError>)
    requires
        header@.len() == 4,
    ensures
        match r {
            Ok(n) => n == be32_val(header@) as usize && n <= MAX_FRAME_PAYLOAD,
            Err(e) => e == ChannelError::MessageTooLarge && be32_val(header@) as usize
                > MAX_FRAME_PAYLOAD,
        },
{
    let b0 = *vstd::slice::slice_index_get(header, 0);
    let b1 = *vstd::slice::slice_index_get(header, 1);
    let b2 = *vstd::slice::slice_index_get(header, 2);
    let b3 = *vstd::slice::slice_index_get(header, 3);
    let n: u32 = ((b0 as u32) << 24) | ((b1 as u32) << 16) | ((b2 as u32) << 8) | (b3 as u32);
    if n > MAX_FRAME_PAYLOAD as u32 {
        Err(ChannelError::MessageTooLarge)
    } else {
        Ok(n as usize)
    }
}

/// Undoes `encode_frame` on a buffer holding exactly one frame.
///
/// `Ok(p)` exactly when the buffer is the frame of a payload `p` within the
/// ceiling; `MessageTooLarge` exactly when the declared length exceeds the
/// ceiling; `IoError` when the buffer is shorter than a header or its length
/// disagrees with the declared one.
pub fn decode_frame(buf: &[u8]) -> (r: Result<Vec<u8>, ChannelError>)
    ensures
        r matches Ok(p) ==> p@.len() <= MAX_FRAME_PAYLOAD && buf@ == frame_of(p@),
        forall|p: Seq<u8>|
            (p.len() <= MAX_FRAME_PAYLOAD && buf@ == frame_of(p)) ==> (r matches Ok(q) && q@
                == p),
        r matches Err(e) ==> ((e == ChannelError::MessageTooLarge <==> (buf@.len() >= 4
            && be32_val(buf@.take(4)) as usize > MAX_FRAME_PAYLOAD)) && (e
            == ChannelError::MessageTooLarge || e == ChannelError::IoError)),
{
    proof {
        assert forall|p: Seq<u8>|
            buf@ == frame_of(p) && p.len() <= 0xFFFF_FFFF implies buf@.len() == p.len() + 4
            && be32_val(buf@.take(4)) == p.len() as u32 && buf@.skip(4) == p by {
            lemma_be32_val_of_be32(p.len() as u32);
            assert(buf@.take(4) =~= be32(p.len() as u32));
            assert(buf@.skip(4) =~= p);
        }
    }
    if buf.len() < 4 {
        return Err(ChannelError::IoError);
    }
    let header = vstd::slice::slice_subrange(buf, 0, 4);
    proof {
        assert(header@ =~= buf@.take(4));
    }
    let n = match frame_payload_len(header) {
        Ok(n) => n,
        Err(e) => {
            return Err(e);
        },
    };
    if buf.len() - 4 != n {
        return Err(ChannelError::IoError);
    }
    let payload = vstd::slice::slice_to_vec(vstd::slice::slice_subrange(buf, 4, buf.len()));
    proof {
        assert(payload@ =~= buf@.skip(4));
        lemma_be32_of_val(buf@.take(4));
        assert(buf@ =~= frame_of(payload@));
    }
    Ok(payload)
}

} // verus!
