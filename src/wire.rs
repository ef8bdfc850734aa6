//! Fixed-width little-endian primitives and the self-delimiting codec trait.

use vstd::prelude::*;
use vstd::bytes::{
    spec_u128_from_le_bytes, spec_u128_to_le_bytes, spec_u16_from_le_bytes,
    spec_u16_to_le_bytes, spec_u32_from_le_bytes, spec_u32_to_le_bytes, u128_from_le_bytes,
    u128_to_le_bytes, u16_from_le_bytes, u16_to_le_bytes, u32_from_le_bytes, u32_to_le_bytes,
    lemma_auto_spec_u128_to_from_le_bytes, lemma_auto_spec_u16_to_from_le_bytes,
    lemma_auto_spec_u32_to_from_le_bytes,
};
use vstd::slice::slice_subrange;

verus! {

/// Why a buffer could not be decoded.
#[derive(Debug, Clone, Copy, PartialEq, Eq, Structural)]
pub enum DecodeError {
    /// Fewer bytes remain than a fixed-width or length-prefixed field needs.
    Truncated,
    /// A field holds a value outside its structure (an unknown discriminant).
    InvalidField,
    /// A wrapped payload's own decoder rejected its bytes.
    InnerDecodeFailed,
}

/// Why a value could not be encoded.
#[derive(Debug, Clone, Copy, PartialEq, Eq, Structural)]
pub enum EncodeError {
    /// A length does not fit in its prefix field.
    TooLong,
}

/// The bytes of `s` from `start` to its end.
pub open spec fn rest(s: Seq<u8>, start: int) -> Seq<u8> {
    s.subrange(start, s.len() as int)
}

/// Two little-endian bytes of `v`.
pub open spec fn le16(v: u16) -> Seq<u8> {
    spec_u16_to_le_bytes(v)
}

/// Four little-endian bytes of `v`.
pub open spec fn le32(v: u32) -> Seq<u8> {
    spec_u32_to_le_bytes(v)
}

/// Sixteen little-endian bytes of `v`.
pub open spec fn le128(v: u128) -> Seq<u8> {
    spec_u128_to_le_bytes(v)
}

/// The `u16` at the front of `s`, if two bytes are there.
pub open spec fn take_u16(s: Seq<u8>) -> Option<u16> {
    if s.len() >= 2 {
        Some(spec_u16_from_le_bytes(s.subrange(0, 2)))
    } else {
        None
    }
}

/// The `u32` at the front of `s`, if four bytes are there.
pub open spec fn take_u32(s: Seq<u8>) -> Option<u32> {
    if s.len() >= 4 {
        Some(spec_u32_from_le_bytes(s.subrange(0, 4)))
    } else {
        None
    }
}

/// The `u128` at the front of `s`, if sixteen bytes are there.
pub open spec fn take_u128(s: Seq<u8>) -> Option<u128> {
    if s.len() >= 16 {
        Some(spec_u128_from_le_bytes(s.subrange(0, 16)))
    } else {
        None
    }
}

/// Reading an encoded integer back gives the integer, whatever follows it.
pub proof fn lemma_take_le(a: u16, b: u32, c: u128, tail: Seq<u8>)
    ensures
        le16(a).len() == 2,
        le32(b).len() == 4,
        le128(c).len() == 16,
        take_u16(le16(a) + tail) == Some(a),
        take_u32(le32(b) + tail) == Some(b),
        take_u128(le128(c) + tail) == Some(c),
{
    lemma_auto_spec_u16_to_from_le_bytes();
    lemma_auto_spec_u32_to_from_le_bytes();
    lemma_auto_spec_u128_to_from_le_bytes();
    assert((le16(a) + tail).subrange(0, 2) =~= le16(a));
    assert((le32(b) + tail).subrange(0, 4) =~= le32(b));
    assert((le128(c) + tail).subrange(0, 16) =~= le128(c));
}

/// Appends `b` to `out`.
pub fn append_bytes(out: &mut Vec<u8>, b: &[u8])
    ensures
        final(out)@ == old(out)@ + b@,
{
    let ghost start = out@;
    let mut i: usize = 0;
    while i < b.len()
        invariant
            i <= b@.len(),
            out@ == start + b@.subrange(0, i as int),
        decreases b@.len() - i,
    {
        out.push(b[i]);
        i = i + 1;
        assert(out@ =~= start + b@.subrange(0, i as int));
    }
    assert(b@.subrange(0, b@.len() as int) =~= b@);
}

/// Appends `v` as one byte.
pub fn write_u8(out: &mut Vec<u8>, v: u8)
    ensures
        final(out)@ == old(out)@.push(v),
{
    out.push(v);
}

/// Appends `v` as two little-endian bytes.
pub fn write_u16(out: &mut Vec<u8>, v: u16)
    ensures
        final(out)@ == old(out)@ + le16(v),
{
    let b = u16_to_le_bytes(v);
    append_bytes(out, b.as_slice());
}

/// Appends `v` as four little-endian bytes.
pub fn write_u32(out: &mut Vec<u8>, v: u32)
    ensures
        final(out)@ == old(out)@ + le32(v),
{
    let b = u32_to_le_bytes(v);
    append_bytes(out, b.as_slice());
}

/// Appends `v` as sixteen little-endian bytes.
pub fn write_u128(out: &mut Vec<u8>, v: u128)
    ensures
        final(out)@ == old(out)@ + le128(v),
{
    let b = u128_to_le_bytes(v);
    append_bytes(out, b.as_slice());
}

/// Reads one byte at `pos`; gives the value and the position after it.
pub fn read_u8(b: &[u8], pos: usize) -> (r: Result<(u8, usize), DecodeError>)
    requires
        pos <= b@.len(),
    ensures
        pos < b@.len() ==> (r matches Ok((w, e)) && w == b@[pos as int] && e == pos + 1),
        pos == b@.len() ==> r == Err::<(u8, usize), DecodeError>(DecodeError::Truncated),
{
    if pos < b.len() {
        Ok((b[pos], pos + 1))
    } else {
        Err(DecodeError::Truncated)
    }
}

/// Reads a little-endian `u16` at `pos`.
pub fn read_u16(b: &[u8], pos: usize) -> (r: Result<(u16, usize), DecodeError>)
    requires
        pos <= b@.len(),
    ensures
        match take_u16(rest(b@, pos as int)) {
            Some(v) => r matches Ok((w, e)) && w == v && e == pos + 2,
            None => r == Err::<(u16, usize), DecodeError>(DecodeError::Truncated),
        },
{
    if b.len() - pos < 2 {
        Err(DecodeError::Truncated)
    } else {
        let s = slice_subrange(b, pos, pos + 2);
        assert(rest(b@, pos as int).subrange(0, 2) =~= s@);
        Ok((u16_from_le_bytes(s), pos + 2))
    }
}

/// Reads a little-endian `u32` at `pos`.
pub fn read_u32(b: &[u8], pos: usize) -> (r: Result<(u32, usize), DecodeError>)
    requires
        pos <= b@.len(),
    ensures
        match take_u32(rest(b@, pos as int)) {
            Some(v) => r matches Ok((w, e)) && w == v && e == pos + 4,
            None => r == Err::<(u32, usize), DecodeError>(DecodeError::Truncated),
        },
{
    if b.len() - pos < 4 {
        Err(DecodeError::Truncated)
    } else {
        let s = slice_subrange(b, pos, pos + 4);
        assert(rest(b@, pos as int).subrange(0, 4) =~= s@);
        Ok((u32_from_le_bytes(s), pos + 4))
    }
}

/// Reads a little-endian `u128` at `pos`.
pub fn read_u128(b: &[u8], pos: usize) -> (r: Result<(u128, usize), DecodeError>)
    requires
        pos <= b@.len(),
    ensures
        match take_u128(rest(b@, pos as int)) {
            Some(v) => r matches Ok((w, e)) && w == v && e == pos + 16,
            None => r == Err::<(u128, usize), DecodeError>(DecodeError::Truncated),
        },
{
    if b.len() - pos < 16 {
        Err(DecodeError::Truncated)
    } else {
        let s = slice_subrange(b, pos, pos + 16);
        assert(rest(b@, pos as int).subrange(0, 16) =~= s@);
        Ok((u128_from_le_bytes(s), pos + 16))
    }
}

/// A value with a canonical, self-delimiting byte encoding.
pub trait Encodable: Sized {
    /// The canonical bytes of the value.
    spec fn wire(&self) -> Seq<u8>;

    /// The value at the front of `s` and the number of bytes it takes, or
    /// why none is there.
    spec fn parse(s: Seq<u8>) -> Result<(Self, int), DecodeError>;

    /// The encoding delimits itself: the value is read back whatever follows.
    proof fn lemma_parse_wire(v: Self, tail: Seq<u8>)
        ensures
            Self::parse(v.wire() + tail) == Ok::<(Self, int), DecodeError>((v, v.wire().len() as int)),
    ;

    /// A strict prefix of an encoding does not parse.
    proof fn lemma_parse_strict_prefix(v: Self, p: Seq<u8>)
        requires
            p.len() < v.wire().len(),
            p =~= v.wire().subrange(0, p.len() as int),
        ensures
            Self::parse(p) is Err,
    ;

    /// A parse never takes more bytes than there are.
    proof fn lemma_parse_len(s: Seq<u8>)
        ensures
            Self::parse(s) matches Ok((_, n)) ==> 0 <= n <= s.len(),
    ;

    /// Appends the canonical bytes.
    fn write_le(&self, out: &mut Vec<u8>)
        ensures
            final(out)@ == old(out)@ + self.wire(),
    ;

    /// Reads a value at `pos`; gives it and the position after it.
    fn read_le(b: &[u8], pos: usize) -> (r: Result<(Self, usize), DecodeError>)
        requires
            pos <= b@.len(),
        ensures
            match Self::parse(rest(b@, pos as int)) {
                Ok((v, n)) => r matches Ok((w, e)) && w == v && e == pos + n,
                Err(e) => r == Err::<(Self, usize), DecodeError>(e),
            },
    ;

    /// An equal copy.
    fn duplicate(&self) -> (r: Self)
        ensures
            r == *self,
    ;
}

/// The encodings of `s`, one after another.
pub open spec fn items_wire<T: Encodable>(s: Seq<T>) -> Seq<u8>
    decreases s.len(),
{
    if s.len() == 0 {
        Seq::empty()
    } else {
        items_wire(s.drop_last()) + s.last().wire()
    }
}

/// `count` values read one after another from the front of `s`, and the
/// number of bytes they take; or the first item's error.
pub open spec fn parse_items<T: Encodable>(s: Seq<u8>, count: nat) -> Result<(Seq<T>, int), DecodeError>
    decreases count,
{
    if count == 0 {
        Ok((Seq::empty(), 0))
    } else {
        match parse_items::<T>(s, (count - 1) as nat) {
            Ok((vs, n)) => match T::parse(rest(s, n)) {
                Ok((v, m)) => Ok((vs.push(v), n + m)),
                Err(e) => Err(e),
            },
            Err(e) => Err(e),
        }
    }
}

/// A parse of items never takes more bytes than there are.
pub proof fn lemma_parse_items_len<T: Encodable>(s: Seq<u8>, count: nat)
    ensures
        parse_items::<T>(s, count) matches Ok((vs, n)) ==> 0 <= n <= s.len() && vs.len()
            == count,
    decreases count,
{
    if count > 0 {
        lemma_parse_items_len::<T>(s, (count - 1) as nat);
        if let Ok((vs, n)) = parse_items::<T>(s, (count - 1) as nat) {
            T::lemma_parse_len(rest(s, n));
        }
    }
}

/// Encoded items are read back, whatever follows them.
pub proof fn lemma_parse_items_wire<T: Encodable>(vs: Seq<T>, tail: Seq<u8>)
    ensures
        parse_items::<T>(items_wire(vs) + tail, vs.len()) == Ok::<(Seq<T>, int), DecodeError>(
            (vs, items_wire(vs).len() as int),
        ),
    decreases vs.len(),
{
    if vs.len() > 0 {
        let init = vs.drop_last();
        let last = vs.last();
        let s = items_wire(vs) + tail;
        let t2 = last.wire() + tail;
        assert(s =~= items_wire(init) + t2);
        lemma_parse_items_wire::<T>(init, t2);
        let n = items_wire(init).len() as int;
        assert(rest(s, n) =~= t2);
        T::lemma_parse_wire(last, tail);
        assert(init.push(last) =~= vs);
    } else {
        assert(vs =~= Seq::<T>::empty());
    }
}

/// A strict prefix of encoded items does not parse as that many items.
pub proof fn lemma_items_strict_prefix<T: Encodable>(vs: Seq<T>, p: Seq<u8>)
    requires
        p.len() < items_wire(vs).len(),
        p =~= items_wire(vs).subrange(0, p.len() as int),
    ensures
        parse_items::<T>(p, vs.len()) is Err,
    decreases vs.len(),
{
    if vs.len() > 0 {
        let init = vs.drop_last();
        let last = vs.last();
        let w0 = items_wire(init);
        if p.len() < w0.len() {
            assert(p =~= w0.subrange(0, p.len() as int));
            lemma_items_strict_prefix::<T>(init, p);
            lemma_err_stays::<T>(p, init.len(), vs.len());
        } else {
            let tail = rest(p, w0.len() as int);
            assert(p =~= w0 + tail);
            lemma_parse_items_wire::<T>(init, tail);
            assert(tail =~= last.wire().subrange(0, tail.len() as int));
            T::lemma_parse_strict_prefix(last, tail);
        }
    }
}

/// Appends the encodings of `items[..count]`.
pub fn write_items<T: Encodable>(out: &mut Vec<u8>, items: &Vec<T>, count: usize)
    requires
        count <= items@.len(),
    ensures
        final(out)@ == old(out)@ + items_wire(items@.take(count as int)),
{
    let ghost start = out@;
    let mut i: usize = 0;
    while i < count
        invariant
            i <= count <= items@.len(),
            out@ == start + items_wire(items@.take(i as int)),
        decreases count - i,
    {
        items[i].write_le(out);
        i = i + 1;
        assert(items@.take(i as int).drop_last() =~= items@.take(i - 1));
        assert(out@ =~= start + items_wire(items@.take(i as int)));
    }
}

/// Reads `count` items starting at `pos`.
pub fn read_items<T: Encodable>(b: &[u8], pos: usize, count: usize) -> (r: Result<
    (Vec<T>, usize),
    DecodeError,
>)
    requires
        pos <= b@.len(),
    ensures
        match parse_items::<T>(rest(b@, pos as int), count as nat) {
            Ok((vs, n)) => r matches Ok((v, e)) && v@ == vs && e == pos + n,
            Err(e) => r == Err::<(Vec<T>, usize), DecodeError>(e),
        },
{
    let ghost s = rest(b@, pos as int);
    let mut items: Vec<T> = Vec::new();
    let mut at: usize = pos;
    let mut i: usize = 0;
    while i < count
        invariant
            i <= count,
            pos <= at <= b@.len(),
            s == rest(b@, pos as int),
            parse_items::<T>(s, i as nat) == Ok::<(Seq<T>, int), DecodeError>((items@, at - pos)),
        decreases count - i,
    {
        assert(rest(s, at - pos) =~= rest(b@, at as int));
        match T::read_le(b, at) {
            Ok((v, e)) => {
                proof {
                    T::lemma_parse_len(rest(b@, at as int));
                }
                items.push(v);
                at = e;
                i = i + 1;
            },
            Err(err) => {
                proof {
                    assert(parse_items::<T>(s, (i + 1) as nat) == Err::<(Seq<T>, int), DecodeError>(err));
                    lemma_err_stays::<T>(s, (i + 1) as nat, count as nat);
                }
                return Err(err);
            },
        }
    }
    Ok((items, at))
}

/// Once a parse of items fails, a parse of more items fails the same way.
pub proof fn lemma_err_stays<T: Encodable>(s: Seq<u8>, i: nat, count: nat)
    requires
        i <= count,
        parse_items::<T>(s, i) is Err,
    ensures
        parse_items::<T>(s, count) == parse_items::<T>(s, i),
    decreases count - i,
{
    if i < count {
        lemma_err_stays::<T>(s, i, (count - 1) as nat);
    }
}

} // verus!
