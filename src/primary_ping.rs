//! The primary's gossip announcement: its chain tip and the certificates it
//! proposes or forwards.

use vstd::prelude::*;
use crate::payload::{
    all_framable, contents, framed, lemma_framed_strict_prefix, lemma_parse_framed,
    lemma_parse_payloads_len, lemma_parse_payloads_wire, lemma_payloads_strict_prefix, parse_payload,
    parse_payloads, payloads_wire, read_payloads, write_payloads, LazyPayload,
};
use crate::wire::{
    append_bytes, le16, le32, lemma_take_le, read_u16, read_u32, rest, take_u16, take_u32, write_u16, write_u32,
    DecodeError, EncodeError, Encodable,
};

verus! {

/// The most batch certificates one ping carries: the width of its count.
/// More are dropped on encoding.
pub const MAX_BATCH_CERTIFICATES: usize = 65535;

/// A ping between primaries: protocol version, block locators `L`, the
/// sender's certificate and a batch of further certificates `C`.
#[derive(Debug, Clone, PartialEq, Eq)]
pub struct PrimaryPing<L, C> {
    pub version: u32,
    pub block_locators: L,
    pub primary_certificate: LazyPayload<C>,
    pub batch_certificates: Vec<LazyPayload<C>>,
}

/// The fields of a ping at the front of `s` (version, block locators, the
/// primary certificate's bytes and each batch certificate's bytes), or the
/// error of the first field that fails.
pub open spec fn parse_primary_ping<L: Encodable>(s: Seq<u8>) -> Result<
    (u32, L, Seq<u8>, Seq<Seq<u8>>),
    DecodeError,
> {
    match take_u32(s) {
        None => Err(DecodeError::Truncated),
        Some(v) => match L::parse(rest(s, 4)) {
            Err(e) => Err(e),
            Ok((l, n1)) => match parse_payload(rest(s, 4 + n1)) {
                None => Err(DecodeError::Truncated),
                Some((p, n2)) => match take_u16(rest(s, 4 + n1 + n2)) {
                    None => Err(DecodeError::Truncated),
                    Some(k) => match parse_payloads(rest(s, 4 + n1 + n2 + 2), k as nat) {
                        None => Err(DecodeError::Truncated),
                        Some((cs, _)) => Ok((v, l, p, cs)),
                    },
                },
            },
        },
    }
}

impl<L: Encodable, C: Encodable> PrimaryPing<L, C> {
    /// The batch certificates that go on the wire: the first
    /// `MAX_BATCH_CERTIFICATES`, in order.
    pub open spec fn shared_batch(&self) -> Seq<LazyPayload<C>> {
        if self.batch_certificates@.len() <= MAX_BATCH_CERTIFICATES {
            self.batch_certificates@
        } else {
            self.batch_certificates@.take(MAX_BATCH_CERTIFICATES as int)
        }
    }

    /// What the ping says on the wire: its version, locators, and the bytes
    /// of each certificate sent, whether held as an object or as bytes.
    pub open spec fn model(&self) -> (u32, L, Seq<u8>, Seq<Seq<u8>>) {
        (
            self.version,
            self.block_locators,
            self.primary_certificate.content(),
            contents(self.shared_batch()),
        )
    }

    /// Whether every length fits its prefix on the wire.
    pub open spec fn encodable(&self) -> bool {
        &&& self.primary_certificate.content().len() <= u32::MAX
        &&& all_framable(contents(self.shared_batch()))
    }

    /// The canonical bytes of the ping.
    pub open spec fn wire(&self) -> Seq<u8> {
        le32(self.version) + self.block_locators.wire() + self.primary_certificate.wire() + le16(
            self.shared_batch().len() as u16,
        ) + payloads_wire(contents(self.shared_batch()))
    }

    /// Builds a ping from its fields.
    pub fn new(
        version: u32,
        block_locators: L,
        primary_certificate: LazyPayload<C>,
        batch_certificates: Vec<LazyPayload<C>>,
    ) -> (r: Self)
        ensures
            r.version == version,
            r.block_locators == block_locators,
            r.primary_certificate == primary_certificate,
            r.batch_certificates@ == batch_certificates@,
    {
        PrimaryPing { version, block_locators, primary_certificate, batch_certificates }
    }

    /// Builds a ping whose certificates are all held as objects.
    pub fn from_objects(
        version: u32,
        block_locators: L,
        primary_certificate: C,
        batch_certificates: Vec<C>,
    ) -> (r: Self)
        ensures
            r.version == version,
            r.block_locators == block_locators,
            r.primary_certificate == LazyPayload::<C>::Object(primary_certificate),
            r.batch_certificates@.len() == batch_certificates@.len(),
            forall|i: int|
                0 <= i < batch_certificates@.len() ==> r.batch_certificates@[i]
                    == LazyPayload::<C>::Object(#[trigger] batch_certificates@[i]),
    {
        let mut batch: Vec<LazyPayload<C>> = Vec::new();
        let mut i: usize = 0;
        while i < batch_certificates.len()
            invariant
                i <= batch_certificates@.len(),
                batch@.len() == i,
                forall|j: int|
                    0 <= j < i ==> batch@[j] == LazyPayload::<C>::Object(
                        #[trigger] batch_certificates@[j],
                    ),
            decreases batch_certificates@.len() - i,
        {
            batch.push(LazyPayload::Object(batch_certificates[i].duplicate()));
            i = i + 1;
        }
        Self::new(version, block_locators, LazyPayload::Object(primary_certificate), batch)
    }

    /// The message's name, for logs and metrics.
    pub fn name(&self) -> (r: &'static str)
        ensures
            r@ == "PrimaryPing"@,
    {
        proof {
            reveal_strlit("PrimaryPing");
        }
        "PrimaryPing"
    }

    /// Appends the ping's bytes; batch certificates past
    /// `MAX_BATCH_CERTIFICATES` are dropped. Fails, writing nothing, only
    /// where a certificate is too long for its length prefix.
    pub fn write_le(&self, out: &mut Vec<u8>) -> (r: Result<(), EncodeError>)
        ensures
            r is Ok <==> self.encodable(),
            r is Ok ==> final(out)@ == old(out)@ + self.wire(),
            r is Err ==> final(out)@ == old(out)@,
    {
        let mut buf: Vec<u8> = Vec::new();
        write_u32(&mut buf, self.version);
        self.block_locators.write_le(&mut buf);
        match self.primary_certificate.write_le(&mut buf) {
            Ok(()) => {},
            Err(e) => {
                return Err(e);
            },
        }
        let count: usize = if self.batch_certificates.len() <= MAX_BATCH_CERTIFICATES {
            self.batch_certificates.len()
        } else {
            MAX_BATCH_CERTIFICATES
        };
        assert(self.batch_certificates@.take(count as int) =~= self.shared_batch());
        write_u16(&mut buf, count as u16);
        match write_payloads(&mut buf, &self.batch_certificates, count) {
            Ok(()) => {},
            Err(e) => {
                return Err(e);
            },
        }
        assert(buf@ =~= self.wire());
        append_bytes(out, buf.as_slice());
        Ok(())
    }

    /// Decodes a ping from the bytes `b`. Certificates come back as
    /// undecoded bytes.
    pub fn read_le(b: &[u8]) -> (r: Result<Self, DecodeError>)
        ensures
            match parse_primary_ping::<L>(b@) {
                Ok(m) => r matches Ok(p) && p.model() == m && p.primary_certificate.is_raw()
                    && p.batch_certificates@.len() <= MAX_BATCH_CERTIFICATES && 4
                    * p.batch_certificates@.len() <= b@.len() && (forall|i: int|
                    0 <= i < p.batch_certificates@.len()
                        ==> (#[trigger] p.batch_certificates@[i]).is_raw()),
                Err(e) => r == Err::<Self, DecodeError>(e),
            },
    {
        let ghost s = b@;
        assert(rest(s, 0) =~= s);
        let (version, at0) = match read_u32(b, 0) {
            Ok(x) => x,
            Err(e) => {
                return Err(e);
            },
        };
        assert(at0 == 4);
        proof {
            L::lemma_parse_len(rest(s, 4));
        }
        let (block_locators, at1) = match L::read_le(b, at0) {
            Ok(x) => x,
            Err(e) => {
                return Err(e);
            },
        };
        let ghost n1 = at1 - 4;
        assert(L::parse(rest(s, 4)) == Ok::<(L, int), DecodeError>((block_locators, n1)));
        let (primary_certificate, at2) = match LazyPayload::<C>::read_le(b, at1) {
            Ok(x) => x,
            Err(e) => {
                return Err(e);
            },
        };
        let ghost n2 = at2 - at1;
        assert(parse_payload(rest(s, 4 + n1)) == Some((primary_certificate.content(), n2)));
        let (count, at3) = match read_u16(b, at2) {
            Ok(x) => x,
            Err(e) => {
                return Err(e);
            },
        };
        assert(take_u16(rest(s, 4 + n1 + n2)) == Some(count));
        assert(at3 == 4 + n1 + n2 + 2);
        let (batch_certificates, _) = match read_payloads::<C>(b, at3, count as usize) {
            Ok(x) => x,
            Err(e) => {
                return Err(e);
            },
        };
        proof {
            lemma_parse_payloads_len(rest(s, at3 as int), count as nat);
        }
        assert(batch_certificates@.len() == count);
        let r = Self::new(version, block_locators, primary_certificate, batch_certificates);
        assert(r.shared_batch() == batch_certificates@);
        Ok(r)
    }
}

/// Decoding an encoded ping gives back what it says, with every certificate
/// as the bytes it was encoded from.
pub proof fn lemma_primary_ping_round_trip<L: Encodable, C: Encodable>(m: PrimaryPing<L, C>)
    requires
        m.encodable(),
    ensures
        parse_primary_ping::<L>(m.wire()) == Ok::<(u32, L, Seq<u8>, Seq<Seq<u8>>), DecodeError>(
            m.model(),
        ),
{
    let s = m.wire();
    let lw = m.block_locators.wire();
    let pc = m.primary_certificate.content();
    let cs = contents(m.shared_batch());
    let k = m.shared_batch().len() as u16;
    let t3 = payloads_wire(cs);
    let t2 = le16(k) + t3;
    let t1 = framed(pc) + t2;
    lemma_take_le(k, m.version, 0, lw + t1);
    lemma_take_le(k, m.version, 0, t3);
    assert(s =~= le32(m.version) + (lw + t1));
    assert(rest(s, 4) =~= lw + t1);
    L::lemma_parse_wire(m.block_locators, t1);
    let n1 = lw.len() as int;
    assert(rest(s, 4 + n1) =~= t1);
    lemma_parse_framed(pc, t2);
    let n2 = 4 + pc.len() as int;
    assert(rest(s, 4 + n1 + n2) =~= t2);
    assert(rest(s, 4 + n1 + n2 + 2) =~= t3 + Seq::empty());
    lemma_parse_payloads_wire(cs, Seq::empty());
    assert(cs.len() == k as nat);
}

/// Every strict prefix of an encoded ping fails to decode.
pub proof fn lemma_primary_ping_truncated<L: Encodable, C: Encodable>(
    m: PrimaryPing<L, C>,
    p: Seq<u8>,
)
    requires
        m.encodable(),
        p.len() < m.wire().len(),
        p =~= m.wire().subrange(0, p.len() as int),
    ensures
        parse_primary_ping::<L>(p) is Err,
{
    let w = m.wire();
    let lw = m.block_locators.wire();
    let pc = m.primary_certificate.content();
    let cs = contents(m.shared_batch());
    let k = m.shared_batch().len() as u16;
    let pw = payloads_wire(cs);
    lemma_take_le(k, m.version, 0, Seq::empty());
    lemma_parse_framed(pc, Seq::empty());
    let b = 4 + lw.len() as int;
    let c = b + 4 + pc.len() as int;
    let d = c + 2;
    assert(w =~= le32(m.version) + lw + framed(pc) + le16(k) + pw);
    if p.len() >= 4 {
        assert(p =~= le32(m.version) + rest(p, 4));
        lemma_take_le(k, m.version, 0, rest(p, 4));
        if p.len() < b {
            assert(rest(p, 4) =~= lw.subrange(0, p.len() - 4));
            L::lemma_parse_strict_prefix(m.block_locators, rest(p, 4));
        } else {
            assert(rest(p, 4) =~= lw + rest(p, b));
            L::lemma_parse_wire(m.block_locators, rest(p, b));
            assert(rest(rest(p, 4), 0) =~= rest(p, 4));
            if p.len() < c {
                assert(rest(p, b) =~= framed(pc).subrange(0, p.len() - b));
                lemma_framed_strict_prefix(pc, rest(p, b));
            } else {
                assert(rest(p, b) =~= framed(pc) + rest(p, c));
                lemma_parse_framed(pc, rest(p, c));
                if p.len() >= d {
                    assert(rest(p, c) =~= le16(k) + rest(p, d));
                    lemma_take_le(k, m.version, 0, rest(p, d));
                    assert(rest(p, d) =~= pw.subrange(0, p.len() - d));
                    lemma_payloads_strict_prefix(cs, rest(p, d));
                    assert(cs.len() == k as nat);
                }
            }
        }
    }
}

} // verus!
