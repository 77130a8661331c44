//! Typed values as byte strings.
//!
//! A [`ByteValue`] is a value of fixed byte width that a buffer can take
//! in and hand back whole.  The byte string is the value's little-endian
//! encoding, so a round trip through any buffer reproduces the exact bit
//! pattern.

use vstd::prelude::*;

verus! {

/// A copyable value with a fixed byte width, encoded little-endian.
pub trait ByteValue: Copy + Sized {
    /// The number of bytes the encoded value occupies.
    spec fn width() -> nat;

    /// The little-endian byte string of the value.
    spec fn as_bytes(self) -> Seq<u8>;

    /// The width is positive, every value encodes to exactly that many
    /// bytes, and no two values share an encoding.
    proof fn lemma_bytes(v: Self, w: Self)
        ensures
            Self::width() > 0,
            v.as_bytes().len() == Self::width(),
            v.as_bytes() == w.as_bytes() ==> v == w,
    ;

    /// Returns the byte width of the type.
    fn byte_width() -> (r: usize)
        ensures
            r == Self::width(),
    ;

    /// Encodes the value.
    fn to_bytes(self) -> (r: Vec<u8>)
        ensures
            r@ == self.as_bytes(),
    ;

    /// Decodes the value whose encoding `bytes` is.
    fn of_bytes(bytes: &[u8]) -> (r: Self)
        requires
            bytes@.len() == Self::width(),
        ensures
            r.as_bytes() == bytes@,
    ;
}

impl ByteValue for u8 {
    open spec fn width() -> nat {
        1
    }

    open spec fn as_bytes(self) -> Seq<u8> {
        seq![self]
    }

    proof fn lemma_bytes(v: Self, w: Self) {
        assert(v.as_bytes()[0] == v);
        assert(w.as_bytes()[0] == w);
    }

    fn byte_width() -> usize {
        1
    }

    fn to_bytes(self) -> (r: Vec<u8>) {
        let mut r: Vec<u8> = Vec::new();
        r.push(self);
        proof {
            assert(r@ =~= self.as_bytes());
        }
        r
    }

    fn of_bytes(bytes: &[u8]) -> (r: Self) {
        let r = bytes[0];
        proof {
            assert(r.as_bytes() =~= bytes@);
        }
        r
    }
}

impl ByteValue for u16 {
    open spec fn width() -> nat {
        2
    }

    open spec fn as_bytes(self) -> Seq<u8> {
        seq![(self & 0xff) as u8, ((self >> 8) & 0xff) as u8]
    }

    proof fn lemma_bytes(v: Self, w: Self) {
        assert((v & 0xff) as u8 == (w & 0xff) as u8 && ((v >> 8) & 0xff) as u8 == ((w >> 8)
            & 0xff) as u8 ==> v == w) by (bit_vector);
        if v.as_bytes() == w.as_bytes() {
            assert(v.as_bytes()[0] == w.as_bytes()[0]);
            assert(v.as_bytes()[1] == w.as_bytes()[1]);
        }
    }

    fn byte_width() -> usize {
        2
    }

    fn to_bytes(self) -> (r: Vec<u8>) {
        let mut r: Vec<u8> = Vec::new();
        r.push((self & 0xff) as u8);
        r.push(((self >> 8) & 0xff) as u8);
        proof {
            assert(r@ =~= self.as_bytes());
        }
        r
    }

    fn of_bytes(bytes: &[u8]) -> (r: Self) {
        let b0 = bytes[0];
        let b1 = bytes[1];
        let r = (b0 as u16) | ((b1 as u16) << 8);
        proof {
            assert((r & 0xff) as u8 == b0 && ((r >> 8) & 0xff) as u8 == b1) by (bit_vector)
                requires
                    r == (b0 as u16) | ((b1 as u16) << 8),
            ;
            assert(r.as_bytes() =~= bytes@);
        }
        r
    }
}

impl ByteValue for u32 {
    open spec fn width() -> nat {
        4
    }

    open spec fn as_bytes(self) -> Seq<u8> {
        seq![
            (self & 0xff) as u8,
            ((self >> 8) & 0xff) as u8,
            ((self >> 16) & 0xff) as u8,
            ((self >> 24) & 0xff) as u8,
        ]
    }

    proof fn lemma_bytes(v: Self, w: Self) {
        assert((v & 0xff) as u8 == (w & 0xff) as u8 && ((v >> 8) & 0xff) as u8 == ((w >> 8)
            & 0xff) as u8 && ((v >> 16) & 0xff) as u8 == ((w >> 16) & 0xff) as u8 && ((v >> 24)
            & 0xff) as u8 == ((w >> 24) & 0xff) as u8 ==> v == w) by (bit_vector);
        if v.as_bytes() == w.as_bytes() {
            assert(v.as_bytes()[0] == w.as_bytes()[0]);
            assert(v.as_bytes()[1] == w.as_bytes()[1]);
            assert(v.as_bytes()[2] == w.as_bytes()[2]);
            assert(v.as_bytes()[3] == w.as_bytes()[3]);
        }
    }

    fn byte_width() -> usize {
        4
    }

    fn to_bytes(self) -> (r: Vec<u8>) {
        let mut r: Vec<u8> = Vec::new();
        r.push((self & 0xff) as u8);
        r.push(((self >> 8) & 0xff) as u8);
        r.push(((self >> 16) & 0xff) as u8);
        r.push(((self >> 24) & 0xff) as u8);
        proof {
            assert(r@ =~= self.as_bytes());
        }
        r
    }

    fn of_bytes(bytes: &[u8]) -> (r: Self) {
        let b0 = bytes[0];
        let b1 = bytes[1];
        let b2 = bytes[2];
        let b3 = bytes[3];
        let r = (b0 as u32) | ((b1 as u32) << 8) | ((b2 as u32) << 16) | ((b3 as u32) << 24);
        proof {
            assert((r & 0xff) as u8 == b0 && ((r >> 8) & 0xff) as u8 == b1 && ((r >> 16)
                & 0xff) as u8 == b2 && ((r >> 24) & 0xff) as u8 == b3) by (bit_vector)
                requires
                    r == (b0 as u32) | ((b1 as u32) << 8) | ((b2 as u32) << 16) | ((b3
                        as u32) << 24),
            ;
            assert(r.as_bytes() =~= bytes@);
        }
        r
    }
}

impl ByteValue for u64 {
    open spec fn width() -> nat {
        8
    }

    open spec fn as_bytes(self) -> Seq<u8> {
        seq![
            (self & 0xff) as u8,
            ((self >> 8) & 0xff) as u8,
            ((self >> 16) & 0xff) as u8,
            ((self >> 24) & 0xff) as u8,
            ((self >> 32) & 0xff) as u8,
            ((self >> 40) & 0xff) as u8,
            ((self >> 48) & 0xff) as u8,
            ((self >> 56) & 0xff) as u8,
        ]
    }

    proof fn lemma_bytes(v: Self, w: Self) {
        assert((v & 0xff) as u8 == (w & 0xff) as u8 && ((v >> 8) & 0xff) as u8 == ((w >> 8)
            & 0xff) as u8 && ((v >> 16) & 0xff) as u8 == ((w >> 16) & 0xff) as u8 && ((v >> 24)
            & 0xff) as u8 == ((w >> 24) & 0xff) as u8 && ((v >> 32) & 0xff) as u8 == ((w >> 32)
            & 0xff) as u8 && ((v >> 40) & 0xff) as u8 == ((w >> 40) & 0xff) as u8 && ((v >> 48)
            & 0xff) as u8 == ((w >> 48) & 0xff) as u8 && ((v >> 56) & 0xff) as u8 == ((w >> 56)
            & 0xff) as u8 ==> v == w) by (bit_vector);
        if v.as_bytes() == w.as_bytes() {
            assert(v.as_bytes()[0] == w.as_bytes()[0]);
            assert(v.as_bytes()[1] == w.as_bytes()[1]);
            assert(v.as_bytes()[2] == w.as_bytes()[2]);
            assert(v.as_bytes()[3] == w.as_bytes()[3]);
            assert(v.as_bytes()[4] == w.as_bytes()[4]);
            assert(v.as_bytes()[5] == w.as_bytes()[5]);
            assert(v.as_bytes()[6] == w.as_bytes()[6]);
            assert(v.as_bytes()[7] == w.as_bytes()[7]);
        }
    }

    fn byte_width() -> usize {
        8
    }

    fn to_bytes(self) -> (r: Vec<u8>) {
        let mut r: Vec<u8> = Vec::new();
        r.push((self & 0xff) as u8);
        r.push(((self >> 8) & 0xff) as u8);
        r.push(((self >> 16) & 0xff) as u8);
        r.push(((self >> 24) & 0xff) as u8);
        r.push(((self >> 32) & 0xff) as u8);
        r.push(((self >> 40) & 0xff) as u8);
        r.push(((self >> 48) & 0xff) as u8);
        r.push(((self >> 56) & 0xff) as u8);
        proof {
            assert(r@ =~= self.as_bytes());
        }
        r
    }

    fn of_bytes(bytes: &[u8]) -> (r: Self) {
        let b0 = bytes[0];
        let b1 = bytes[1];
        let b2 = bytes[2];
        let b3 = bytes[3];
        let b4 = bytes[4];
        let b5 = bytes[5];
        let b6 = bytes[6];
        let b7 = bytes[7];
        let r = (b0 as u64) | ((b1 as u64) << 8) | ((b2 as u64) << 16) | ((b3 as u64) << 24) | (
        (b4 as u64) << 32) | ((b5 as u64) << 40) | ((b6 as u64) << 48) | ((b7 as u64) << 56);
        proof {
            assert((r & 0xff) as u8 == b0 && ((r >> 8) & 0xff) as u8 == b1 && ((r >> 16)
                & 0xff) as u8 == b2 && ((r >> 24) & 0xff) as u8 == b3 && ((r >> 32) & 0xff) as u8
                == b4 && ((r >> 40) & 0xff) as u8 == b5 && ((r >> 48) & 0xff) as u8 == b6 && ((r
                >> 56) & 0xff) as u8 == b7) by (bit_vector)
                requires
                    r == (b0 as u64) | ((b1 as u64) << 8) | ((b2 as u64) << 16) | ((b3
                        as u64) << 24) | ((b4 as u64) << 32) | ((b5 as u64) << 40) | ((b6
                        as u64) << 48) | ((b7 as u64) << 56),
            ;
            assert(r.as_bytes() =~= bytes@);
        }
        r
    }
}

/// No two values of one [`ByteValue`] type share an encoding, so a value
/// written to a buffer and read back whole is reproduced exactly.
pub proof fn lemma_value_round_trip<T: ByteValue>(v: T, r: T)
    requires
        r.as_bytes() == v.as_bytes(),
    ensures
        r == v,
{
    T::lemma_bytes(v, r);
}

} // verus!
