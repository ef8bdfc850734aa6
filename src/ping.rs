//! The router's keep-alive: protocol version and the sender's chain tip.

use vstd::prelude::*;
use crate::wire::{le32, lemma_take_le, read_u32, rest, take_u32, write_u32, DecodeError, Encodable};

verus! {

/// A ping between peers: protocol version and block locators `L`.
#[derive(Debug, Clone, PartialEq, Eq)]
pub struct Ping<L> {
    pub version: u32,
    pub block_locators: L,
}

/// The ping at the front of `s` (a little-endian `u32` version, then the
/// block locators), or the error of the first field that fails.
pub open spec fn parse_ping<L: Encodable>(s: Seq<u8>) -> Result<(u32, L), DecodeError> {
    match take_u32(s) {
        None => Err(DecodeError::Truncated),
        Some(v) => match L::parse(rest(s, 4)) {
            Err(e) => Err(e),
            Ok((l, _)) => Ok((v, l)),
        },
    }
}

impl<L: Encodable> Ping<L> {
    /// The canonical bytes of the ping.
    pub open spec fn wire(&self) -> Seq<u8> {
        le32(self.version) + self.block_locators.wire()
    }

    /// The message's name, for logs and metrics.
    pub fn name(&self) -> (r: &'static str)
        ensures
            r@ == "Ping"@,
    {
        proof {
            reveal_strlit("Ping");
        }
        "Ping"
    }

    /// Appends the ping's bytes.
    pub fn serialize(&self, out: &mut Vec<u8>)
        ensures
            final(out)@ == old(out)@ + self.wire(),
    {
        write_u32(out, self.version);
        self.block_locators.write_le(out);
        assert(final(out)@ =~= old(out)@ + self.wire());
    }

    /// Decodes a ping from the bytes `b`.
    pub fn deserialize(b: &[u8]) -> (r: Result<Self, DecodeError>)
        ensures
            match parse_ping::<L>(b@) {
                Ok((v, l)) => r matches Ok(m) && m.version == v && m.block_locators == l,
                Err(e) => r == Err::<Self, DecodeError>(e),
            },
    {
        assert(rest(b@, 0) =~= b@);
        match read_u32(b, 0) {
            Err(e) => Err(e),
            Ok((version, at)) => match L::read_le(b, at) {
                Err(e) => Err(e),
                Ok((block_locators, _)) => Ok(Ping { version, block_locators }),
            },
        }
    }
}

/// Decoding an encoded ping gives back its version and locators; no strict
/// prefix decodes.
pub proof fn lemma_ping_round_trip<L: Encodable>(m: Ping<L>, p: Seq<u8>)
    ensures
        parse_ping::<L>(m.wire()) == Ok::<(u32, L), DecodeError>((m.version, m.block_locators)),
        p.len() < m.wire().len() && p =~= m.wire().subrange(0, p.len() as int) ==> parse_ping::<
            L,
        >(p) is Err,
{
    let s = m.wire();
    let lw = m.block_locators.wire();
    lemma_take_le(0, m.version, 0, lw);
    assert(rest(s, 4) =~= lw + Seq::empty());
    L::lemma_parse_wire(m.block_locators, Seq::empty());
    if p.len() < s.len() && p =~= s.subrange(0, p.len() as int) && p.len() >= 4 {
        assert(p =~= le32(m.version) + rest(p, 4));
        lemma_take_le(0, m.version, 0, rest(p, 4));
        assert(rest(p, 4) =~= lw.subrange(0, p.len() - 4));
        L::lemma_parse_strict_prefix(m.block_locators, rest(p, 4));
    }
}

} // verus!
