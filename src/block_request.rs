//! A request for a range of blocks, by height.

use vstd::prelude::*;
use crate::wire::{le32, lemma_take_le, read_u32, rest, take_u32, write_u32, DecodeError};

verus! {

/// Asks a peer for the blocks from `start_height` up to `end_height`; the
/// range itself is checked by the sync logic, not here.
#[derive(Debug, Clone, Copy, PartialEq, Eq, Structural)]
pub struct BlockRequest {
    pub start_height: u32,
    pub end_height: u32,
}

/// The request at the front of `s`: two little-endian `u32` heights.
pub open spec fn parse_block_request(s: Seq<u8>) -> Option<BlockRequest> {
    match (take_u32(s), take_u32(rest(s, 4))) {
        (Some(start_height), Some(end_height)) => Some(BlockRequest { start_height, end_height }),
        _ => None,
    }
}

impl BlockRequest {
    /// The canonical bytes of the request.
    pub open spec fn wire(&self) -> Seq<u8> {
        le32(self.start_height) + le32(self.end_height)
    }

    /// The message's name, for logs and metrics.
    pub fn name(&self) -> (r: &'static str)
        ensures
            r@ == "BlockRequest"@,
    {
        proof {
            reveal_strlit("BlockRequest");
        }
        "BlockRequest"
    }

    /// Appends the request's bytes.
    pub fn serialize(&self, out: &mut Vec<u8>)
        ensures
            final(out)@ == old(out)@ + self.wire(),
    {
        write_u32(out, self.start_height);
        write_u32(out, self.end_height);
        assert(final(out)@ =~= old(out)@ + self.wire());
    }

    /// Decodes a request from the bytes `b`.
    pub fn deserialize(b: &[u8]) -> (r: Result<Self, DecodeError>)
        ensures
            match parse_block_request(b@) {
                Some(m) => r == Ok::<Self, DecodeError>(m),
                None => r == Err::<Self, DecodeError>(DecodeError::Truncated),
            },
    {
        assert(rest(b@, 0) =~= b@);
        match read_u32(b, 0) {
            Err(e) => Err(e),
            Ok((start_height, at)) => match read_u32(b, at) {
                Err(e) => Err(e),
                Ok((end_height, _)) => Ok(BlockRequest { start_height, end_height }),
            },
        }
    }
}

/// Decoding an encoded request gives it back; no strict prefix decodes.
pub proof fn lemma_block_request_round_trip(m: BlockRequest, p: Seq<u8>)
    ensures
        parse_block_request(m.wire()) == Some(m),
        p.len() < m.wire().len() ==> parse_block_request(p) is None,
{
    let s = m.wire();
    lemma_take_le(0, m.start_height, 0, le32(m.end_height));
    lemma_take_le(0, m.end_height, 0, Seq::empty());
    assert(rest(s, 4) =~= le32(m.end_height) + Seq::empty());
}

} // verus!
