//! Fixed-capacity byte buffers with uniform read, write and consume semantics.
//!
//! The crate offers two engines over a fixed block of storage: a linear
//! [`stack::Buffer`] whose capacity is set at construction, and a circular
//! [`stack::Ring`] of power-of-two capacity that never rejects a write and
//! instead silently discards the oldest unread bytes when it is full.
//! The capability traits in this module describe what any such buffer
//! exposes; both engines implement them and are verified against the
//! contracts stated here.

use vstd::prelude::*;

use crate::value::ByteValue;

pub mod iter;
pub mod stack;
pub mod value;

verus! {

/// Alias to the linear buffer engine.
pub type StaticBuffer = stack::Buffer;

/// Alias to the circular buffer engine.
pub type RingBuffer = stack::Ring;

/// How many bytes fall off the front of a buffer of capacity `cap` that
/// holds `len` bytes when `added` more are pushed in: zero while everything
/// fits, and the exact overshoot once `len + added` exceeds `cap`.
pub open spec fn spill(len: nat, added: nat, cap: nat) -> int {
    if len + added > cap {
        len + added - cap
    } else {
        0
    }
}

/// Round trip of a write followed by a read, over the model the buffer
/// contracts use: writing `src` into a buffer that holds `contents` and
/// has room for all of it spills nothing, keeps the old bytes at the
/// front, and puts exactly `src`, in order, behind them — so reading the
/// old bytes and then `src.len()` more hands `src` back unchanged.
pub proof fn lemma_write_read_round_trip(contents: Seq<u8>, src: Seq<u8>, cap: nat)
    requires
        contents.len() + src.len() <= cap,
    ensures
        spill(contents.len(), src.len(), cap) == 0,
        (contents + src).take(contents.len() as int) == contents,
        (contents + src).skip(contents.len() as int) == src,
{
    assert((contents + src).take(contents.len() as int) =~= contents);
    assert((contents + src).skip(contents.len() as int) =~= src);
}

/// Common buffer: a fixed amount of storage holding a sequence of readable
/// bytes, with indexed access to each of them.
pub trait Buf: Sized {
    /// The abstract invariant of the buffer; every operation preserves it.
    spec fn inv(&self) -> bool;

    /// The fixed size of the underlying storage in bytes.
    spec fn cap(&self) -> nat;

    /// The bytes currently held, oldest first.
    spec fn contents(&self) -> Seq<u8>;

    /// A buffer never holds more bytes than its storage has room for.
    proof fn lemma_contents_within_capacity(&self)
        requires
            self.inv(),
        ensures
            self.contents().len() <= self.cap(),
    ;

    /// Returns the size of the underlying storage in bytes.
    fn capacity(&self) -> (r: usize)
        requires
            self.inv(),
        ensures
            r == self.cap(),
    ;

    /// Returns the number of bytes inside the buffer.
    fn len(&self) -> (r: usize)
        requires
            self.inv(),
        ensures
            r == self.contents().len(),
    ;

    /// Returns the byte at `index`, counted from the oldest byte held.
    fn get(&self, index: usize) -> (r: u8)
        requires
            self.inv(),
            index < self.contents().len(),
        ensures
            r == self.contents()[index as int],
    ;

    /// Overwrites the byte at `index`, counted from the oldest byte held.
    fn set(&mut self, index: usize, value: u8)
        requires
            old(self).inv(),
            index < old(self).contents().len(),
        ensures
            final(self).inv(),
            final(self).contents() == old(self).contents().update(index as int, value),
            final(self).cap() == old(self).cap(),
    ;
}

/// A buffer whose storage may change size; meant for adapters over growable
/// storage, not implemented by the fixed-capacity engines of this crate.
pub trait DynBuf {
    /// Reserves additional storage, enough to fit at least `size` more bytes.
    fn reserve(&mut self, size: usize);

    /// Removes `size` bytes of storage; removes all of it when `size` is
    /// larger than the current capacity.
    fn shrink(&mut self, size: usize);
}

/// A buffer whose readable bytes form one contiguous block of storage, so
/// that they can be borrowed as a single slice.  The circular engine does
/// not offer this: its bytes may wrap around the physical end of storage.
pub trait ContBuf: Buf {
    /// Borrows the written bytes.
    fn as_read_slice(&self) -> (r: &[u8])
        requires
            self.inv(),
        ensures
            r@ == self.contents(),
    ;

    /// Mutably borrows the written bytes.  A slice cannot change its
    /// length, so the buffer afterwards holds exactly the bytes the caller
    /// left in the slice.
    fn as_read_slice_mut(&mut self) -> (r: &mut [u8])
        requires
            old(self).inv(),
        ensures
            r@ == old(self).contents(),
            final(r)@.len() == old(self).contents().len() ==> {
                &&& final(self).inv()
                &&& final(self).contents() == final(r)@
                &&& final(self).cap() == old(self).cap()
            },
    ;

    /// Mutably borrows the bytes not written yet, without marking any of
    /// them as written: the readable bytes stay exactly as they were.
    /// What the caller stores through the slice only becomes readable once
    /// the write cursor moves over it.
    fn as_write_slice(&mut self) -> (r: &mut [u8])
        requires
            old(self).inv(),
        ensures
            r@.len() == old(self).cap() - old(self).contents().len(),
            final(r)@.len() == r@.len() ==> {
                &&& final(self).inv()
                &&& final(self).contents() == old(self).contents()
                &&& final(self).cap() == old(self).cap()
            },
    ;
}

/// Read side of a buffer: bytes leave at the front, oldest first.
pub trait ReadBuf: Buf {
    /// Returns the number of bytes ready to be read.
    fn available(&self) -> (r: usize)
        requires
            self.inv(),
        ensures
            r == self.contents().len(),
    {
        self.len()
    }

    /// Retires `step` bytes from the front without copying them anywhere.
    fn consume(&mut self, step: usize)
        requires
            old(self).inv(),
            step <= old(self).contents().len(),
        ensures
            final(self).inv(),
            final(self).contents() == old(self).contents().skip(step as int),
            final(self).cap() == old(self).cap(),
    ;

    /// Copies the oldest `size` bytes into the front of `dst` and consumes
    /// them, as one step.
    fn read(&mut self, dst: &mut Vec<u8>, size: usize)
        requires
            old(self).inv(),
            size <= old(self).contents().len(),
            size <= old(dst)@.len(),
        ensures
            final(self).inv(),
            final(dst)@ == old(self).contents().take(size as int) + old(dst)@.skip(size as int),
            final(self).contents() == old(self).contents().skip(size as int),
            final(self).cap() == old(self).cap(),
    ;

    /// Reads into the front of `bytes`, clamping the count to whatever is
    /// available, and returns how many bytes were actually read.
    fn read_slice(&mut self, bytes: &mut Vec<u8>) -> (r: usize)
        requires
            old(self).inv(),
        ensures
            final(self).inv(),
            r == if old(bytes)@.len() <= old(self).contents().len() {
                old(bytes)@.len() as int
            } else {
                old(self).contents().len() as int
            },
            final(bytes)@ == old(self).contents().take(r as int) + old(bytes)@.skip(r as int),
            final(self).contents() == old(self).contents().skip(r as int),
            final(self).cap() == old(self).cap(),
    {
        let avail = self.available();
        let read_len: usize = if bytes.len() < avail {
            bytes.len()
        } else {
            avail
        };
        if read_len > 0 {
            self.read(bytes, read_len);
        } else {
            proof {
                assert(old(self).contents().take(0) + old(bytes)@.skip(0) =~= old(bytes)@);
                assert(old(self).contents().skip(0) =~= old(self).contents());
            }
        }
        read_len
    }
}

/// Extension of the read side: reading whole typed values.
pub trait ReadBufExt: ReadBuf {
    /// Reads one value of `T` from the front of the buffer into `val` and
    /// consumes its bytes, returning their count.  When fewer than
    /// `T::width()` bytes are available, nothing happens and 0 comes back.
    fn read_value<T: ByteValue>(&mut self, val: &mut T) -> (r: usize)
        requires
            old(self).inv(),
        ensures
            final(self).inv(),
            final(self).cap() == old(self).cap(),
            if T::width() <= old(self).contents().len() {
                &&& r == T::width()
                &&& final(val).as_bytes() == old(self).contents().take(T::width() as int)
                &&& final(self).contents() == old(self).contents().skip(T::width() as int)
            } else {
                &&& r == 0
                &&& *final(val) == *old(val)
                &&& final(self).contents() == old(self).contents()
            },
    {
        let size = T::byte_width();
        proof {
            T::lemma_bytes(*old(val), *old(val));
        }
        if size != 0 && self.available() >= size {
            let mut tmp: Vec<u8> = vec![0u8; size];
            self.read(&mut tmp, size);
            proof {
                assert(tmp@ =~= old(self).contents().take(size as int));
            }
            *val = T::of_bytes(tmp.as_slice());
            size
        } else {
            0
        }
    }
}

impl<B: ReadBuf> ReadBufExt for B {
}

/// Write side of a buffer: bytes enter at the back.
pub trait WriteBuf: Buf {
    /// How many bytes a single write may hand over: the free room for the
    /// linear engine, the whole capacity for the circular one.
    spec fn space(&self) -> nat;

    /// Returns the number of bytes that may still be written.
    fn remaining(&self) -> (r: usize)
        requires
            self.inv(),
        ensures
            r == self.space(),
    ;

    /// Moves the write cursor forward by `step` bytes without writing them;
    /// the bytes taken in come from storage and are not specified here.
    fn advance(&mut self, step: usize)
        requires
            old(self).inv(),
            step <= old(self).space(),
        ensures
            final(self).inv(),
            final(self).cap() == old(self).cap(),
            final(self).contents().len() == old(self).contents().len() + step - spill(
                old(self).contents().len(),
                step as nat,
                old(self).cap(),
            ),
            final(self).contents().take(
                old(self).contents().len() - spill(
                    old(self).contents().len(),
                    step as nat,
                    old(self).cap(),
                ),
            ) == old(self).contents().skip(
                spill(old(self).contents().len(), step as nat, old(self).cap()),
            ),
    ;

    /// Appends all of `src`; when the bytes would not fit, the oldest bytes
    /// spill out at the front (the circular engine) — the linear engine
    /// requires that they fit, so nothing spills there.
    fn write(&mut self, src: &[u8])
        requires
            old(self).inv(),
            src@.len() <= old(self).space(),
        ensures
            final(self).inv(),
            final(self).cap() == old(self).cap(),
            final(self).contents() == (old(self).contents() + src@).skip(
                spill(old(self).contents().len(), src@.len(), old(self).cap()),
            ),
    ;

    /// Writes as much of `bytes` as fits, clamping the count to the space
    /// left, and returns how many bytes were actually written.
    fn write_slice(&mut self, bytes: &[u8]) -> (r: usize)
        requires
            old(self).inv(),
        ensures
            final(self).inv(),
            final(self).cap() == old(self).cap(),
            r == if bytes@.len() <= old(self).space() {
                bytes@.len() as int
            } else {
                old(self).space() as int
            },
            final(self).contents() == (old(self).contents() + bytes@.take(r as int)).skip(
                spill(old(self).contents().len(), r as nat, old(self).cap()),
            ),
    {
        let rem = self.remaining();
        let write_len: usize = if bytes.len() < rem {
            bytes.len()
        } else {
            rem
        };
        proof {
            old(self).lemma_contents_within_capacity();
        }
        if write_len > 0 {
            self.write(&bytes[0..write_len]);
            proof {
                assert(bytes@.subrange(0, write_len as int) =~= bytes@.take(write_len as int));
            }
        } else {
            proof {
                assert(old(self).contents() + bytes@.take(0) =~= old(self).contents());
                assert((old(self).contents() + bytes@.take(0)).skip(0) =~= old(self).contents());
            }
        }
        write_len
    }
}

/// Extension of the write side: writing whole typed values.
pub trait WriteBufExt: WriteBuf {
    /// Writes the bytes of `val` at the back of the buffer and returns
    /// their count.  When the space a write may hand over cannot take all
    /// of them, nothing happens and 0 comes back.
    fn write_value<T: ByteValue>(&mut self, val: &T) -> (r: usize)
        requires
            old(self).inv(),
        ensures
            final(self).inv(),
            final(self).cap() == old(self).cap(),
            if T::width() <= old(self).space() {
                &&& r == T::width()
                &&& final(self).contents() == (old(self).contents() + val.as_bytes()).skip(
                    spill(old(self).contents().len(), T::width(), old(self).cap()),
                )
            } else {
                &&& r == 0
                &&& final(self).contents() == old(self).contents()
            },
    {
        let size = T::byte_width();
        proof {
            T::lemma_bytes(*val, *val);
        }
        if size != 0 && self.remaining() >= size {
            let bytes = val.to_bytes();
            self.write(bytes.as_slice());
            size
        } else {
            0
        }
    }
}

impl<B: WriteBuf> WriteBufExt for B {
}

} // verus!
