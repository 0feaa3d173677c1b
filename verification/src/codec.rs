//! The frame codec: a stateless-per-call translation between the Read
//! Buffer and discrete payloads.  `decode` takes one complete frame off the
//! front of the buffer, or reports that the frame is still incomplete and
//! leaves the buffer untouched; `encode` appends one frame.

use vstd::prelude::*;

use crate::buffer::{buf_advance, buf_bytes, buf_copy_range, buf_extend, buf_get, buf_len};
use crate::error::AgentError;
use crate::frame::{be32_decode, be32_encode, drain, frame_of, parse_one, views_of};

verus! {

/// The length-prefix codec.  It keeps no state of its own; all state lives
/// in the buffer it is applied to.
pub struct MessageCodec;

impl MessageCodec {
    /// Takes one complete frame off the front of `src`.  With fewer than
    /// four bytes buffered, or a length field announcing more payload than
    /// is buffered, nothing is consumed and `None` comes back.
    pub fn decode(&mut self, src: &mut bytes::BytesMut) -> (r: Option<Vec<u8>>)
        ensures
            match r {
                None => {
                    &&& parse_one(buf_bytes(*old(src))) is None
                    &&& buf_bytes(*final(src)) == buf_bytes(*old(src))
                },
                Some(p) => {
                    &&& parse_one(buf_bytes(*old(src))) == Some((p@, 4 + p@.len() as int))
                    &&& buf_bytes(*final(src)) == buf_bytes(*old(src)).skip(4 + p@.len() as int)
                },
            },
    {
        let n = buf_len(src);
        if n < 4 {
            return None;
        }
        let b0 = buf_get(src, 0);
        let b1 = buf_get(src, 1);
        let b2 = buf_get(src, 2);
        let b3 = buf_get(src, 3);
        proof {
            assert(seq![b0, b1, b2, b3] =~= buf_bytes(*src).subrange(0, 4));
        }
        let length = be32_decode(b0, b1, b2, b3) as usize;
        if n - 4 < length {
            return None;
        }
        let payload = buf_copy_range(src, 4, 4 + length);
        buf_advance(src, 4 + length);
        Some(payload)
    }

    /// Appends the frame for `item` at the back of `dst`: the four-byte
    /// big-endian payload length, then the payload.  A payload whose length
    /// does not fit the four-byte field cannot be framed; `dst` is then left
    /// untouched.
    pub fn encode(&mut self, item: &Vec<u8>, dst: &mut bytes::BytesMut) -> (r: Result<
        (),
        AgentError,
    >)
        ensures
            match r {
                Ok(_) => {
                    &&& item@.len() <= u32::MAX
                    &&& buf_bytes(*final(dst)) == buf_bytes(*old(dst)) + frame_of(item@)
                },
                Err(e) => {
                    &&& e == AgentError::Serialization
                    &&& item@.len() > u32::MAX
                    &&& buf_bytes(*final(dst)) == buf_bytes(*old(dst))
                },
            },
    {
        if item.len() > u32::MAX as usize {
            return Err(AgentError::Serialization);
        }
        let header = be32_encode(item.len() as u32);
        buf_extend(dst, &header);
        buf_extend(dst, item);
        proof {
            assert(buf_bytes(*final(dst)) =~= buf_bytes(*old(dst)) + frame_of(item@));
        }
        Ok(())
    }

    /// Takes every complete frame off the front of `src`, in order, leaving
    /// only the remainder that holds no complete frame.
    pub fn decode_all(&mut self, src: &mut bytes::BytesMut) -> (ps: Vec<Vec<u8>>)
        ensures
            views_of(ps@) == drain(buf_bytes(*old(src))).0,
            buf_bytes(*final(src)) == drain(buf_bytes(*old(src))).1,
        decreases buf_bytes(*old(src)).len(),
    {
        match self.decode(src) {
            None => Vec::new(),
            Some(p) => {
                let mut rest = self.decode_all(src);
                rest.insert(0, p);
                proof {
                    assert(views_of(rest@) =~= drain(buf_bytes(*old(src))).0);
                }
                rest
            },
        }
    }
}

} // verus!
