//! Keys: values that can be compared and turned into the bytes that are hashed.

use vstd::bytes::{
    spec_u16_to_le_bytes, spec_u32_to_le_bytes, spec_u64_to_le_bytes, u16_to_le_bytes,
    u32_to_le_bytes, u64_to_le_bytes,
};
use vstd::prelude::*;
use vstd::utf8::{encode_utf8, encode_utf8_decode_utf8};

verus! {

/// What a map needs from its keys.
///
/// Two keys are the same key exactly when their views are equal. The bytes that
/// are hashed are a function of the view, so equal keys always hash alike.
pub trait Key: View + Sized {
    /// The bytes that stand for a key with view `v` when it is hashed.
    spec fn encoding(v: Self::V) -> Seq<u8>;

    /// Appends the key's encoding to `out`.
    fn encode(&self, out: &mut Vec<u8>)
        ensures
            final(out)@ == old(out)@ + Self::encoding(self@),
    ;

    /// Decides whether `self` and `other` are the same key.
    fn same(&self, other: &Self) -> (r: bool)
        ensures
            r == (self@ == other@),
    ;
}

impl Key for bool {
    open spec fn encoding(v: bool) -> Seq<u8> {
        if v {
            seq![1u8]
        } else {
            seq![0u8]
        }
    }

    fn encode(&self, out: &mut Vec<u8>) {
        let byte: u8 = if *self {
            1
        } else {
            0
        };
        out.push(byte);
        assert(out@ =~= old(out)@ + Self::encoding(self@));
    }

    fn same(&self, other: &Self) -> (r: bool) {
        *self == *other
    }
}

impl Key for u64 {
    open spec fn encoding(v: u64) -> Seq<u8> {
        spec_u64_to_le_bytes(v)
    }

    fn encode(&self, out: &mut Vec<u8>) {
        let mut bytes = u64_to_le_bytes(*self);
        out.append(&mut bytes);
    }

    fn same(&self, other: &Self) -> (r: bool) {
        *self == *other
    }
}

impl Key for i32 {
    open spec fn encoding(v: i32) -> Seq<u8> {
        spec_u32_to_le_bytes(v as u32)
    }

    fn encode(&self, out: &mut Vec<u8>) {
        let mut bytes = u32_to_le_bytes(#[verifier::truncate] (*self as u32));
        out.append(&mut bytes);
    }

    fn same(&self, other: &Self) -> (r: bool) {
        *self == *other
    }
}

impl Key for u8 {
    open spec fn encoding(v: u8) -> Seq<u8> {
        seq![v]
    }

    fn encode(&self, out: &mut Vec<u8>) {
        out.push(*self);
        assert(out@ =~= old(out)@ + Self::encoding(self@));
    }

    fn same(&self, other: &Self) -> (r: bool) {
        *self == *other
    }
}

impl Key for u16 {
    open spec fn encoding(v: u16) -> Seq<u8> {
        spec_u16_to_le_bytes(v)
    }

    fn encode(&self, out: &mut Vec<u8>) {
        let mut bytes = u16_to_le_bytes(*self);
        out.append(&mut bytes);
    }

    fn same(&self, other: &Self) -> (r: bool) {
        *self == *other
    }
}

impl Key for u32 {
    open spec fn encoding(v: u32) -> Seq<u8> {
        spec_u32_to_le_bytes(v)
    }

    fn encode(&self, out: &mut Vec<u8>) {
        let mut bytes = u32_to_le_bytes(*self);
        out.append(&mut bytes);
    }

    fn same(&self, other: &Self) -> (r: bool) {
        *self == *other
    }
}

impl Key for usize {
    open spec fn encoding(v: usize) -> Seq<u8> {
        spec_u64_to_le_bytes(v as u64)
    }

    fn encode(&self, out: &mut Vec<u8>) {
        let mut bytes = u64_to_le_bytes(*self as u64);
        out.append(&mut bytes);
    }

    fn same(&self, other: &Self) -> (r: bool) {
        *self == *other
    }
}

impl Key for i8 {
    open spec fn encoding(v: i8) -> Seq<u8> {
        seq![v as u8]
    }

    fn encode(&self, out: &mut Vec<u8>) {
        out.push(#[verifier::truncate] (*self as u8));
        assert(out@ =~= old(out)@ + Self::encoding(self@));
    }

    fn same(&self, other: &Self) -> (r: bool) {
        *self == *other
    }
}

impl Key for i16 {
    open spec fn encoding(v: i16) -> Seq<u8> {
        spec_u16_to_le_bytes(v as u16)
    }

    fn encode(&self, out: &mut Vec<u8>) {
        let mut bytes = u16_to_le_bytes(#[verifier::truncate] (*self as u16));
        out.append(&mut bytes);
    }

    fn same(&self, other: &Self) -> (r: bool) {
        *self == *other
    }
}

impl Key for i64 {
    open spec fn encoding(v: i64) -> Seq<u8> {
        spec_u64_to_le_bytes(v as u64)
    }

    fn encode(&self, out: &mut Vec<u8>) {
        let mut bytes = u64_to_le_bytes(#[verifier::truncate] (*self as u64));
        out.append(&mut bytes);
    }

    fn same(&self, other: &Self) -> (r: bool) {
        *self == *other
    }
}

impl Key for isize {
    open spec fn encoding(v: isize) -> Seq<u8> {
        spec_u64_to_le_bytes(v as u64)
    }

    fn encode(&self, out: &mut Vec<u8>) {
        let mut bytes = u64_to_le_bytes(#[verifier::truncate] (*self as u64));
        out.append(&mut bytes);
    }

    fn same(&self, other: &Self) -> (r: bool) {
        *self == *other
    }
}

impl Key for char {
    open spec fn encoding(v: char) -> Seq<u8> {
        spec_u32_to_le_bytes(v as u32)
    }

    fn encode(&self, out: &mut Vec<u8>) {
        let mut bytes = u32_to_le_bytes(*self as u32);
        out.append(&mut bytes);
    }

    fn same(&self, other: &Self) -> (r: bool) {
        *self == *other
    }
}

impl Key for String {
    open spec fn encoding(v: Seq<char>) -> Seq<u8> {
        encode_utf8(v)
    }

    fn encode(&self, out: &mut Vec<u8>) {
        append_bytes(out, self.as_str().as_bytes());
    }

    fn same(&self, other: &Self) -> (r: bool) {
        *self == *other
    }
}

impl<'a> Key for &'a str {
    open spec fn encoding(v: Seq<char>) -> Seq<u8> {
        encode_utf8(v)
    }

    fn encode(&self, out: &mut Vec<u8>) {
        append_bytes(out, self.as_bytes());
    }

    fn same(&self, other: &Self) -> (r: bool) {
        let r = same_bytes(self.as_bytes(), other.as_bytes());
        proof {
            encode_utf8_decode_utf8(self@);
            encode_utf8_decode_utf8(other@);
        }
        r
    }
}

impl<A: Key, B: Key> Key for (A, B) {
    open spec fn encoding(v: (A::V, B::V)) -> Seq<u8> {
        A::encoding(v.0) + B::encoding(v.1)
    }

    fn encode(&self, out: &mut Vec<u8>) {
        self.0.encode(out);
        self.1.encode(out);
        assert(out@ =~= old(out)@ + Self::encoding(self@));
    }

    fn same(&self, other: &Self) -> (r: bool) {
        self.0.same(&other.0) && self.1.same(&other.1)
    }
}

/// Appends every byte of `bytes` to `out`.
fn append_bytes(out: &mut Vec<u8>, bytes: &[u8])
    ensures
        final(out)@ == old(out)@ + bytes@,
{
    let mut i: usize = 0;
    while i < bytes.len()
        invariant
            i <= bytes@.len(),
            out@ == old(out)@ + bytes@.subrange(0, i as int),
        decreases bytes@.len() - i,
    {
        out.push(bytes[i]);
        i += 1;
        assert(out@ =~= old(out)@ + bytes@.subrange(0, i as int));
    }
    assert(bytes@.subrange(0, i as int) =~= bytes@);
}

/// Decides whether two byte slices hold the same bytes.
fn same_bytes(a: &[u8], b: &[u8]) -> (r: bool)
    ensures
        r == (a@ == b@),
{
    if a.len() != b.len() {
        return false;
    }
    let mut i: usize = 0;
    while i < a.len()
        invariant
            a@.len() == b@.len(),
            i <= a@.len(),
            a@.subrange(0, i as int) == b@.subrange(0, i as int),
        decreases a@.len() - i,
    {
        if a[i] != b[i] {
            return false;
        }
        i += 1;
        assert(a@.subrange(0, i as int) =~= a@.subrange(0, i - 1).push(a@[i - 1]));
        assert(b@.subrange(0, i as int) =~= b@.subrange(0, i - 1).push(b@[i - 1]));
    }
    assert(a@.subrange(0, i as int) =~= a@);
    assert(b@.subrange(0, i as int) =~= b@);
    true
}

} // verus!
