//! The peer-discovery answer: a list of known peer addresses.

use vstd::prelude::*;
use crate::addr::PeerAddr;
use crate::wire::{items_wire, lemma_items_strict_prefix, lemma_parse_items_len, lemma_parse_items_wire, parse_items, read_items, rest, write_items, write_u8, DecodeError};

verus! {

/// The most addresses one response carries; more are dropped on encoding.
pub const MAX_PEERS: usize = 255;

/// A snapshot of the peers a node knows, sent in answer to a discovery query.
#[derive(Debug, Clone, PartialEq, Eq)]
pub struct PeerResponse {
    pub peers: Vec<PeerAddr>,
}

/// The peers that a response in the bytes `s` lists (a one-byte count, then
/// that many addresses), or the error of the first field that fails.
pub open spec fn parse_peer_response(s: Seq<u8>) -> Result<Seq<PeerAddr>, DecodeError> {
    if s.len() < 1 {
        Err(DecodeError::Truncated)
    } else {
        match parse_items::<PeerAddr>(rest(s, 1), s[0] as nat) {
            Ok((vs, _)) => Ok(vs),
            Err(e) => Err(e),
        }
    }
}

impl PeerResponse {
    /// The addresses that go on the wire: the first `MAX_PEERS`, in order.
    pub open spec fn shared(&self) -> Seq<PeerAddr> {
        if self.peers@.len() <= MAX_PEERS {
            self.peers@
        } else {
            self.peers@.take(MAX_PEERS as int)
        }
    }

    /// The canonical bytes of the response.
    pub open spec fn wire(&self) -> Seq<u8> {
        seq![self.shared().len() as u8] + items_wire(self.shared())
    }

    /// The message's name, for logs and metrics.
    pub fn name(&self) -> (r: &'static str)
        ensures
            r@ == "PeerResponse"@,
    {
        proof {
            reveal_strlit("PeerResponse");
        }
        "PeerResponse"
    }

    /// Appends the response's bytes; addresses past `MAX_PEERS` are dropped.
    pub fn serialize(&self, out: &mut Vec<u8>)
        ensures
            final(out)@ == old(out)@ + self.wire(),
    {
        let count: usize = if self.peers.len() <= MAX_PEERS {
            self.peers.len()
        } else {
            MAX_PEERS
        };
        write_u8(out, count as u8);
        write_items(out, &self.peers, count);
        assert(self.peers@.take(count as int) =~= self.shared());
        assert(final(out)@ =~= old(out)@ + self.wire());
    }

    /// Decodes a response from the bytes `b`.
    pub fn deserialize(b: &[u8]) -> (r: Result<Self, DecodeError>)
        ensures
            match parse_peer_response(b@) {
                Ok(ps) => r matches Ok(m) && m.peers@ == ps,
                Err(e) => r == Err::<Self, DecodeError>(e),
            },
            r matches Ok(m) ==> m.peers@.len() <= MAX_PEERS,
    {
        if b.len() < 1 {
            return Err(DecodeError::Truncated);
        }
        let count = b[0];
        proof {
            lemma_parse_items_len::<PeerAddr>(rest(b@, 1), count as nat);
        }
        match read_items::<PeerAddr>(b, 1, count as usize) {
            Ok((peers, _)) => Ok(PeerResponse { peers }),
            Err(e) => Err(e),
        }
    }
}

/// Decoding an encoded response gives back its addresses, cut to the first
/// `MAX_PEERS` in order.
pub proof fn lemma_peer_response_round_trip(m: PeerResponse)
    ensures
        parse_peer_response(m.wire()) == Ok::<Seq<PeerAddr>, DecodeError>(m.shared()),
        m.shared().len() <= MAX_PEERS,
        m.shared() =~= m.peers@.take(m.shared().len() as int),
{
    let s = m.wire();
    lemma_parse_items_wire::<PeerAddr>(m.shared(), Seq::empty());
    assert(rest(s, 1) =~= items_wire(m.shared()) + Seq::empty());
}

/// Every strict prefix of an encoded response fails to decode.
pub proof fn lemma_peer_response_truncated(m: PeerResponse, p: Seq<u8>)
    requires
        p.len() < m.wire().len(),
        p =~= m.wire().subrange(0, p.len() as int),
    ensures
        parse_peer_response(p) is Err,
{
    if p.len() > 0 {
        let w = m.wire();
        assert(p[0] == w[0]);
        assert(rest(p, 1) =~= items_wire(m.shared()).subrange(0, p.len() - 1));
        lemma_items_strict_prefix::<PeerAddr>(m.shared(), rest(p, 1));
    }
}

} // verus!
