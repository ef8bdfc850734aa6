//! Socket addresses as they travel on the wire.

use vstd::prelude::*;
use crate::wire::{
    le128, le16, le32, lemma_take_le, read_u128, read_u16, read_u32, rest, take_u128,
    take_u16, take_u32, write_u128, write_u16, write_u32, write_u8, DecodeError, Encodable,
};

verus! {

/// A peer's socket address: an IP address, as its integer form, and a port.
#[allow(inconsistent_fields)]
#[derive(Debug, Clone, Copy, PartialEq, Eq, Structural)]
pub enum PeerAddr {
    V4 { ip: u32, port: u16 },
    V6 { ip: u128, port: u16 },
}

impl Encodable for PeerAddr {
    /// A tag byte (0 for IPv4, 1 for IPv6), the address, then the port.
    open spec fn wire(&self) -> Seq<u8> {
        match *self {
            PeerAddr::V4 { ip, port } => seq![0u8] + le32(ip) + le16(port),
            PeerAddr::V6 { ip, port } => seq![1u8] + le128(ip) + le16(port),
        }
    }

    open spec fn parse(s: Seq<u8>) -> Result<(Self, int), DecodeError> {
        if s.len() < 1 {
            Err(DecodeError::Truncated)
        } else if s[0] == 0u8 {
            match (take_u32(rest(s, 1)), take_u16(rest(s, 5))) {
                (Some(ip), Some(port)) => Ok((PeerAddr::V4 { ip, port }, 7)),
                _ => Err(DecodeError::Truncated),
            }
        } else if s[0] == 1u8 {
            match (take_u128(rest(s, 1)), take_u16(rest(s, 17))) {
                (Some(ip), Some(port)) => Ok((PeerAddr::V6 { ip, port }, 19)),
                _ => Err(DecodeError::Truncated),
            }
        } else {
            Err(DecodeError::InvalidField)
        }
    }

    proof fn lemma_parse_wire(v: Self, tail: Seq<u8>) {
        let s = v.wire() + tail;
        match v {
            PeerAddr::V4 { ip, port } => {
                lemma_take_le(port, ip, 0, tail);
                lemma_take_le(port, ip, 0, le16(port) + tail);
                assert(rest(s, 1) =~= le32(ip) + (le16(port) + tail));
                assert(rest(s, 5) =~= le16(port) + tail);
            },
            PeerAddr::V6 { ip, port } => {
                lemma_take_le(port, 0, ip, tail);
                lemma_take_le(port, 0, ip, le16(port) + tail);
                assert(rest(s, 1) =~= le128(ip) + (le16(port) + tail));
                assert(rest(s, 17) =~= le16(port) + tail);
            },
        }
    }

    proof fn lemma_parse_len(s: Seq<u8>) {
    }

    proof fn lemma_parse_strict_prefix(v: Self, p: Seq<u8>) {
        match v {
            PeerAddr::V4 { ip, port } => lemma_take_le(port, ip, 0, Seq::empty()),
            PeerAddr::V6 { ip, port } => lemma_take_le(port, 0, ip, Seq::empty()),
        }
        if p.len() > 0 {
            assert(p[0] == v.wire()[0]);
        }
    }

    fn write_le(&self, out: &mut Vec<u8>) {
        match *self {
            PeerAddr::V4 { ip, port } => {
                write_u8(out, 0);
                write_u32(out, ip);
                write_u16(out, port);
            },
            PeerAddr::V6 { ip, port } => {
                write_u8(out, 1);
                write_u128(out, ip);
                write_u16(out, port);
            },
        }
        assert(final(out)@ =~= old(out)@ + self.wire());
    }

    fn read_le(b: &[u8], pos: usize) -> (r: Result<(Self, usize), DecodeError>) {
        let ghost s = rest(b@, pos as int);
        if pos >= b.len() {
            return Err(DecodeError::Truncated);
        }
        let tag = b[pos];
        let at = pos + 1;
        assert(rest(s, 1) =~= rest(b@, at as int));
        if tag == 0 {
            match read_u32(b, at) {
                Err(e) => Err(e),
                Ok((ip, at2)) => {
                    assert(rest(s, 5) =~= rest(b@, at2 as int));
                    match read_u16(b, at2) {
                        Err(e) => Err(e),
                        Ok((port, at3)) => Ok((PeerAddr::V4 { ip, port }, at3)),
                    }
                },
            }
        } else if tag == 1 {
            match read_u128(b, at) {
                Err(e) => Err(e),
                Ok((ip, at2)) => {
                    assert(rest(s, 17) =~= rest(b@, at2 as int));
                    match read_u16(b, at2) {
                        Err(e) => Err(e),
                        Ok((port, at3)) => Ok((PeerAddr::V6 { ip, port }, at3)),
                    }
                },
            }
        } else {
            Err(DecodeError::InvalidField)
        }
    }

    fn duplicate(&self) -> (r: Self) {
        *self
    }
}

} // verus!
