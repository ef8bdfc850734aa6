//! A payload carried either as a typed object or as its still-undecoded bytes.

use vstd::prelude::*;
use crate::wire::{
    append_bytes, le32, lemma_take_le, read_u32, rest, take_u32, write_u32, DecodeError,
    EncodeError, Encodable,
};
use vstd::slice::slice_subrange;
use vstd::bytes::lemma_auto_spec_u32_to_from_le_bytes;

verus! {

/// Either a materialized object or the bytes of its canonical encoding.
///
/// Decoding a message only ever yields `Buffer`; turning it into an object is
/// asked for explicitly with `deserialize_blocking`.
#[derive(Debug, Clone, PartialEq, Eq)]
pub enum LazyPayload<T> {
    Object(T),
    Buffer(Vec<u8>),
}

/// A payload at the front of `s`: a `u32` length, then that many bytes.
/// Gives the bytes and the number of bytes the payload takes.
pub open spec fn parse_payload(s: Seq<u8>) -> Option<(Seq<u8>, int)> {
    match take_u32(s) {
        Some(n) => if 4 + n <= s.len() {
            Some((s.subrange(4, 4 + n), 4 + n))
        } else {
            None
        },
        None => None,
    }
}

/// The wire form of a payload whose bytes are `c`.
pub open spec fn framed(c: Seq<u8>) -> Seq<u8> {
    le32(c.len() as u32) + c
}

/// The wire forms of payloads with bytes `cs`, one after another.
pub open spec fn payloads_wire(cs: Seq<Seq<u8>>) -> Seq<u8>
    decreases cs.len(),
{
    if cs.len() == 0 {
        Seq::empty()
    } else {
        payloads_wire(cs.drop_last()) + framed(cs.last())
    }
}

/// `count` payloads read one after another from the front of `s`, and the
/// number of bytes they take.
pub open spec fn parse_payloads(s: Seq<u8>, count: nat) -> Option<(Seq<Seq<u8>>, int)>
    decreases count,
{
    if count == 0 {
        Some((Seq::empty(), 0))
    } else {
        match parse_payloads(s, (count - 1) as nat) {
            Some((cs, n)) => match parse_payload(rest(s, n)) {
                Some((c, m)) => Some((cs.push(c), n + m)),
                None => None,
            },
            None => None,
        }
    }
}

/// Every one of `cs` fits a `u32` length prefix.
pub open spec fn all_framable(cs: Seq<Seq<u8>>) -> bool {
    forall|i: int| 0 <= i < cs.len() ==> (#[trigger] cs[i]).len() <= u32::MAX
}

/// A framed payload is read back whatever follows it.
pub proof fn lemma_parse_framed(c: Seq<u8>, tail: Seq<u8>)
    requires
        c.len() <= u32::MAX,
    ensures
        parse_payload(framed(c) + tail) == Some((c, 4 + c.len() as int)),
        framed(c).len() == 4 + c.len(),
{
    lemma_take_le(0, c.len() as u32, 0, c + tail);
    let s = framed(c) + tail;
    assert(s =~= le32(c.len() as u32) + (c + tail));
    assert(s.subrange(4, 4 + c.len() as int) =~= c);
}

/// Framed payloads are read back whatever follows them.
pub proof fn lemma_parse_payloads_wire(cs: Seq<Seq<u8>>, tail: Seq<u8>)
    requires
        all_framable(cs),
    ensures
        parse_payloads(payloads_wire(cs) + tail, cs.len()) == Some(
            (cs, payloads_wire(cs).len() as int),
        ),
    decreases cs.len(),
{
    if cs.len() > 0 {
        let init = cs.drop_last();
        let last = cs.last();
        let s = payloads_wire(cs) + tail;
        let t2 = framed(last) + tail;
        assert(s =~= payloads_wire(init) + t2);
        assert(all_framable(init));
        lemma_parse_payloads_wire(init, t2);
        let n = payloads_wire(init).len() as int;
        assert(rest(s, n) =~= t2);
        lemma_parse_framed(last, tail);
        assert(init.push(last) =~= cs);
    }
}

/// A strict prefix of a framed payload does not parse.
pub proof fn lemma_framed_strict_prefix(c: Seq<u8>, q: Seq<u8>)
    requires
        c.len() <= u32::MAX,
        q.len() < framed(c).len(),
        q =~= framed(c).subrange(0, q.len() as int),
    ensures
        parse_payload(q) is None,
{
    lemma_take_le(0, c.len() as u32, 0, Seq::empty());
    if q.len() >= 4 {
        assert(q.subrange(0, 4) =~= le32(c.len() as u32) + Seq::<u8>::empty());
        lemma_take_le(0, c.len() as u32, 0, rest(q, 4));
        assert(q =~= le32(c.len() as u32) + rest(q, 4));
    }
}

/// A strict prefix of framed payloads does not parse as that many payloads.
pub proof fn lemma_payloads_strict_prefix(cs: Seq<Seq<u8>>, p: Seq<u8>)
    requires
        all_framable(cs),
        p.len() < payloads_wire(cs).len(),
        p =~= payloads_wire(cs).subrange(0, p.len() as int),
    ensures
        parse_payloads(p, cs.len()) is None,
    decreases cs.len(),
{
    if cs.len() > 0 {
        let init = cs.drop_last();
        let last = cs.last();
        let w0 = payloads_wire(init);
        assert(all_framable(init));
        if p.len() < w0.len() {
            assert(p =~= w0.subrange(0, p.len() as int));
            lemma_payloads_strict_prefix(init, p);
            lemma_payloads_none_stays(p, init.len(), cs.len());
        } else {
            let tail = rest(p, w0.len() as int);
            assert(p =~= w0 + tail);
            lemma_parse_payloads_wire(init, tail);
            assert(tail =~= framed(last).subrange(0, tail.len() as int));
            lemma_framed_strict_prefix(last, tail);
        }
    }
}

/// A parse of payloads gives as many as were asked for.
pub proof fn lemma_parse_payloads_len(s: Seq<u8>, count: nat)
    ensures
        parse_payloads(s, count) matches Some((cs, _)) ==> cs.len() == count,
    decreases count,
{
    if count > 0 {
        lemma_parse_payloads_len(s, (count - 1) as nat);
    }
}

/// Once a parse of payloads fails, a parse of more payloads fails too.
pub proof fn lemma_payloads_none_stays(s: Seq<u8>, i: nat, count: nat)
    requires
        i <= count,
        parse_payloads(s, i) is None,
    ensures
        parse_payloads(s, count) is None,
    decreases count - i,
{
    if i < count {
        lemma_payloads_none_stays(s, i, (count - 1) as nat);
    }
}

impl<T: Encodable> LazyPayload<T> {
    /// The bytes the payload stands for: the object's encoding, or the
    /// buffer as it is.
    pub open spec fn content(&self) -> Seq<u8> {
        match self {
            LazyPayload::Object(t) => t.wire(),
            LazyPayload::Buffer(b) => b@,
        }
    }

    /// The payload's wire form: the length of its bytes, then the bytes.
    pub open spec fn wire(&self) -> Seq<u8> {
        framed(self.content())
    }

    /// Whether the payload holds undecoded bytes.
    pub open spec fn is_raw(&self) -> bool {
        self is Buffer
    }

    /// Wraps an object.
    pub fn from_object(t: T) -> (r: Self)
        ensures
            r == LazyPayload::<T>::Object(t),
    {
        LazyPayload::Object(t)
    }

    /// Appends the payload's wire form. A buffer is written as it is, never
    /// decoded. Fails only where the bytes are too long for the prefix.
    pub fn write_le(&self, out: &mut Vec<u8>) -> (r: Result<(), EncodeError>)
        ensures
            r is Ok <==> self.content().len() <= u32::MAX,
            r is Ok ==> final(out)@ == old(out)@ + self.wire(),
            r is Err ==> final(out)@ == old(out)@,
    {
        match self {
            LazyPayload::Object(t) => {
                let mut buf: Vec<u8> = Vec::new();
                t.write_le(&mut buf);
                assert(buf@ =~= t.wire());
                if buf.len() > u32::MAX as usize {
                    return Err(EncodeError::TooLong);
                }
                write_u32(out, buf.len() as u32);
                append_bytes(out, buf.as_slice());
            },
            LazyPayload::Buffer(b) => {
                if b.len() > u32::MAX as usize {
                    return Err(EncodeError::TooLong);
                }
                write_u32(out, b.len() as u32);
                append_bytes(out, b.as_slice());
            },
        }
        assert(final(out)@ =~= old(out)@ + self.wire());
        Ok(())
    }

    /// Reads a payload at `pos` as undecoded bytes; the object inside is not
    /// looked at.
    pub fn read_le(b: &[u8], pos: usize) -> (r: Result<(Self, usize), DecodeError>)
        requires
            pos <= b@.len(),
        ensures
            match parse_payload(rest(b@, pos as int)) {
                Some((c, n)) => r matches Ok((p, e)) && p is Buffer && p.content() == c && e == pos
                    + n,
                None => r == Err::<(Self, usize), DecodeError>(DecodeError::Truncated),
            },
    {
        let ghost s = rest(b@, pos as int);
        match read_u32(b, pos) {
            Err(e) => Err(e),
            Ok((n, at)) => {
                if b.len() - at < n as usize {
                    return Err(DecodeError::Truncated);
                }
                let end = at + n as usize;
                let bytes = slice_subrange(b, at, end);
                let mut buf: Vec<u8> = Vec::new();
                append_bytes(&mut buf, bytes);
                assert(buf@ =~= s.subrange(4, 4 + n));
                Ok((LazyPayload::Buffer(buf), end))
            },
        }
    }

    /// Materializes the object: a copy of it, or the decoding of the buffer
    /// by the object's own decoder.
    pub fn deserialize_blocking(&self) -> (r: Result<T, DecodeError>)
        ensures
            match self {
                LazyPayload::Object(t) => r == Ok::<T, DecodeError>(*t),
                LazyPayload::Buffer(b) => match T::parse(b@) {
                    Ok((t, _)) => r == Ok::<T, DecodeError>(t),
                    Err(_) => r == Err::<T, DecodeError>(DecodeError::InnerDecodeFailed),
                },
            },
    {
        match self {
            LazyPayload::Object(t) => Ok(t.duplicate()),
            LazyPayload::Buffer(b) => {
                assert(rest(b@, 0) =~= b@);
                match T::read_le(b.as_slice(), 0) {
                    Ok((t, _)) => Ok(t),
                    Err(_) => Err(DecodeError::InnerDecodeFailed),
                }
            },
        }
    }
}

/// Materializing a payload built from an object gives the object; so does
/// materializing the payload decoded from its encoding.
pub proof fn lemma_materialize_round_trip<T: Encodable>(t: T, tail: Seq<u8>)
    requires
        t.wire().len() <= u32::MAX,
    ensures
        LazyPayload::<T>::Object(t).wire() == framed(t.wire()),
        parse_payload(LazyPayload::<T>::Object(t).wire() + tail) == Some(
            (t.wire(), 4 + t.wire().len() as int),
        ),
        T::parse(t.wire()) == Ok::<(T, int), DecodeError>((t, t.wire().len() as int)),
{
    lemma_parse_framed(t.wire(), tail);
    T::lemma_parse_wire(t, Seq::empty());
    assert(t.wire() + Seq::<u8>::empty() =~= t.wire());
}

/// A payload decoded from bytes is written back as exactly those bytes.
pub proof fn lemma_raw_pass_through(s: Seq<u8>)
    ensures
        parse_payload(s) matches Some((c, n)) ==> framed(c) == s.subrange(0, n),
{
    if let Some((c, n)) = parse_payload(s) {
        lemma_auto_spec_u32_to_from_le_bytes();
        let len = take_u32(s).unwrap();
        assert(c.len() == len);
        assert(le32(len) == s.subrange(0, 4));
        assert(framed(c) =~= s.subrange(0, n));
    }
}

/// Appends the wire forms of `items[..count]`.
pub fn write_payloads<T: Encodable>(
    out: &mut Vec<u8>,
    items: &Vec<LazyPayload<T>>,
    count: usize,
) -> (r: Result<(), EncodeError>)
    requires
        count <= items@.len(),
    ensures
        r is Ok <==> all_framable(contents(items@.take(count as int))),
        r is Ok ==> final(out)@ == old(out)@ + payloads_wire(contents(items@.take(count as int))),
{
    let ghost start = out@;
    let mut i: usize = 0;
    while i < count
        invariant
            i <= count <= items@.len(),
            all_framable(contents(items@.take(i as int))),
            out@ == start + payloads_wire(contents(items@.take(i as int))),
        decreases count - i,
    {
        let res = items[i].write_le(out);
        if res.is_err() {
            assert(!all_framable(contents(items@.take(count as int)))) by {
                assert(contents(items@.take(count as int))[i as int] == items@[i as int].content());
            }
            return Err(EncodeError::TooLong);
        }
        i = i + 1;
        assert(contents(items@.take(i as int)).drop_last() =~= contents(items@.take(i - 1)));
        assert(contents(items@.take(i as int)) =~= contents(items@.take(i - 1)).push(
            items@[i - 1].content(),
        ));
        assert(out@ =~= start + payloads_wire(contents(items@.take(i as int))));
    }
    Ok(())
}

/// The bytes each of `ps` stands for.
pub open spec fn contents<T: Encodable>(ps: Seq<LazyPayload<T>>) -> Seq<Seq<u8>> {
    ps.map_values(|p: LazyPayload<T>| p.content())
}

/// Reads `count` payloads starting at `pos`, each as undecoded bytes.
pub fn read_payloads<T: Encodable>(b: &[u8], pos: usize, count: usize) -> (r: Result<
    (Vec<LazyPayload<T>>, usize),
    DecodeError,
>)
    requires
        pos <= b@.len(),
    ensures
        match parse_payloads(rest(b@, pos as int), count as nat) {
            Some((cs, n)) => r matches Ok((v, e)) && contents(v@) == cs && e == pos + n && e <= b@.len()
                && 4 * v@.len() <= n && (forall|i: int|
                0 <= i < v@.len() ==> (#[trigger] v@[i]).is_raw()),
            None => r == Err::<(Vec<LazyPayload<T>>, usize), DecodeError>(DecodeError::Truncated),
        },
{
    let ghost s = rest(b@, pos as int);
    let mut items: Vec<LazyPayload<T>> = Vec::new();
    let mut at: usize = pos;
    let mut i: usize = 0;
    while i < count
        invariant
            i <= count,
            pos <= at <= b@.len(),
            s == rest(b@, pos as int),
            parse_payloads(s, i as nat) == Some((contents(items@), at - pos)),
            4 * items@.len() <= at - pos,
            forall|j: int| 0 <= j < items@.len() ==> (#[trigger] items@[j]).is_raw(),
        decreases count - i,
    {
        assert(rest(s, at - pos) =~= rest(b@, at as int));
        match LazyPayload::<T>::read_le(b, at) {
            Ok((p, e)) => {
                let ghost old_items = items@;
                items.push(p);
                assert(contents(items@) =~= contents(old_items).push(p.content()));
                at = e;
                i = i + 1;
            },
            Err(err) => {
                proof {
                    assert(parse_payloads(s, (i + 1) as nat) is None);
                    lemma_payloads_none_stays(s, (i + 1) as nat, count as nat);
                }
                return Err(err);
            },
        }
    }
    Ok((items, at))
}

} // verus!
