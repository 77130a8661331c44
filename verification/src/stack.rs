//! The linear buffer engine.
//!
//! A [`Buffer`] owns a block of exactly `capacity` bytes and a single write
//! cursor.  Bytes before the cursor are the written, readable prefix; bytes
//! from the cursor to the end of storage are not yet written and never
//! readable.  Reading consumes from the front and shifts what remains back
//! to offset zero, so the readable bytes always form one contiguous span.

use vstd::prelude::*;

use crate::{spill, Buf, ReadBuf, WriteBuf};

verus! {

/// A fixed-capacity linear byte buffer.
///
/// The readable view `self@` is the written prefix of the storage; the
/// capacity never changes after construction.
#[derive(Debug)]
pub struct Buffer {
    data: Vec<u8>,
    cursor: usize,
}

impl View for Buffer {
    type V = Seq<u8>;

    /// The written, readable bytes.
    closed spec fn view(&self) -> Seq<u8> {
        self.data@.take(self.cursor as int)
    }
}

impl Buffer {
    /// The full backing storage, including the not-yet-written tail.
    pub closed spec fn raw(&self) -> Seq<u8> {
        self.data@
    }

    /// The write cursor: how many bytes of storage count as written.
    pub closed spec fn spec_len(&self) -> nat {
        self.cursor as nat
    }

    /// The fixed size of the storage in bytes.
    pub closed spec fn spec_capacity(&self) -> nat {
        self.data@.len()
    }

    /// Well-formed: the write cursor lies within the storage.
    pub closed spec fn wf(&self) -> bool {
        self.cursor <= self.data@.len()
    }

    /// Relates the readable view to the storage model.
    pub proof fn lemma_model(&self)
        requires
            self.wf(),
        ensures
            self@ == self.raw().take(self.spec_len() as int),
            self@.len() == self.spec_len(),
            self.raw().len() == self.spec_capacity(),
            self@.len() <= self.spec_capacity(),
    {
    }

    /// Creates an empty buffer over `capacity` bytes of storage.
    pub fn new(capacity: usize) -> (r: Self)
        ensures
            r.wf(),
            r@ == Seq::<u8>::empty(),
            r.spec_capacity() == capacity,
            r.spec_len() == 0,
    {
        let b = Buffer { data: vec![0u8; capacity], cursor: 0 };
        proof {
            assert(b@ =~= Seq::<u8>::empty());
        }
        b
    }

    /// Returns the storage size in bytes.
    pub fn capacity(&self) -> (r: usize)
        ensures
            r == self.spec_capacity(),
    {
        self.data.len()
    }

    /// Returns the number of bytes written.
    pub fn len(&self) -> (r: usize)
        requires
            self.wf(),
        ensures
            r == self@.len(),
    {
        self.cursor
    }

    /// Returns the number of bytes left to write.
    pub fn remaining(&self) -> (r: usize)
        requires
            self.wf(),
        ensures
            r == self.spec_capacity() - self@.len(),
    {
        self.data.len() - self.cursor
    }

    /// Shortens the written prefix to `cursor` bytes.
    ///
    /// Does nothing when `cursor` is at or past the current length; the
    /// storage itself is left untouched.
    pub fn truncate(&mut self, cursor: usize)
        requires
            old(self).wf(),
        ensures
            final(self).wf(),
            final(self)@ == truncate_result(old(self)@, cursor as nat),
            final(self).raw() == old(self).raw(),
            final(self).spec_capacity() == old(self).spec_capacity(),
    {
        if cursor < self.cursor {
            self.cursor = cursor;
            proof {
                assert(self@ =~= old(self)@.take(cursor as int));
            }
        }
    }

    /// Builds a buffer from its storage and a write cursor.  The caller
    /// vouches that the first `cursor` bytes of `inner` are written data.
    pub fn from_parts(inner: Vec<u8>, cursor: usize) -> (r: Self)
        requires
            cursor <= inner@.len(),
        ensures
            r.wf(),
            r.raw() == inner@,
            r.spec_len() == cursor,
            r.spec_capacity() == inner@.len(),
            r@ == inner@.take(cursor as int),
    {
        Buffer { data: inner, cursor }
    }

    /// Splits the buffer into its storage and its write cursor.
    pub fn into_parts(self) -> (r: (Vec<u8>, usize))
        ensures
            r.0@ == self.raw(),
            r.1 == self.spec_len(),
    {
        (self.data, self.cursor)
    }

    /// Marks the first `cursor` bytes of storage as written, without
    /// writing anything.  The caller vouches that those bytes hold what
    /// they are meant to, typically after filling them through
    /// [`ContBuf::as_write_slice`].
    pub fn set_len(&mut self, cursor: usize)
        requires
            cursor <= old(self).spec_capacity(),
        ensures
            final(self).wf(),
            final(self).raw() == old(self).raw(),
            final(self)@ == old(self).raw().take(cursor as int),
            final(self).spec_capacity() == old(self).spec_capacity(),
    {
        self.cursor = cursor;
    }

    /// Returns an iterator over the written bytes.
    pub fn iter<'a>(&'a self) -> (r: crate::iter::Iter<'a, Buffer>)
        requires
            self.wf(),
        ensures
            r.wf(),
            r.remaining_bytes() == self@,
    {
        let l = Buffer::len(self);
        let r = crate::iter::Iter::new(self, 0, l);
        proof {
            assert(self@.subrange(0, l as int) =~= self@);
        }
        r
    }

    /// Reinterprets the buffer in place as a circular buffer: the storage
    /// and the write cursor carry over unchanged, and reading starts at
    /// the front of the storage.
    pub fn into_circular(self) -> (r: Ring)
        requires
            self.wf(),
            is_pow2(self.spec_capacity() as usize),
        ensures
            r.wf(),
            r@ == self@,
            r.spec_capacity() == self.spec_capacity(),
            r.raw() == self.raw(),
    {
        let ghost orig = self;
        let r = Ring::from_parts(self, 0);
        proof {
            assert(orig@.skip(0) =~= orig@);
        }
        r
    }

    /// Borrows the written bytes.
    pub fn as_slice(&self) -> (r: &[u8])
        requires
            self.wf(),
        ensures
            r@ == self@,
    {
        &self.data.as_slice()[0..self.cursor]
    }

    /// Mutably borrows the written bytes.
    pub fn as_mut_slice(&mut self) -> (r: &mut [u8])
        requires
            old(self).wf(),
        ensures
            r@ == old(self)@,
            final(r)@.len() == old(self)@.len() ==> {
                &&& final(self).wf()
                &&& final(self)@ == final(r)@
                &&& final(self).raw() == final(r)@ + old(self).raw().skip(
                    old(self)@.len() as int,
                )
                &&& final(self).spec_capacity() == old(self).spec_capacity()
            },
    {
        self.data.as_mut_slice().split_at_mut(self.cursor).0
    }
}

impl Buf for Buffer {
    open spec fn inv(&self) -> bool {
        self.wf()
    }

    open spec fn cap(&self) -> nat {
        self.spec_capacity()
    }

    open spec fn contents(&self) -> Seq<u8> {
        self@
    }

    proof fn lemma_contents_within_capacity(&self) {
    }

    fn capacity(&self) -> usize {
        Buffer::capacity(self)
    }

    fn len(&self) -> usize {
        Buffer::len(self)
    }

    fn get(&self, index: usize) -> u8 {
        self.data[index]
    }

    fn set(&mut self, index: usize, value: u8) {
        self.data.set(index, value);
        proof {
            assert(self@ =~= old(self)@.update(index as int, value));
        }
    }
}

impl ReadBuf for Buffer {
    /// Retiring `step` bytes shifts the bytes behind them to the front of
    /// the storage, so that the readable span stays contiguous.
    fn consume(&mut self, step: usize)
        ensures
            final(self).wf(),
            final(self)@ == old(self)@.skip(step as int),
            final(self).spec_capacity() == old(self).spec_capacity(),
    {
        if step == 0 {
            proof {
                assert(self@ =~= old(self)@.skip(0));
            }
            return ;
        }
        let left = self.cursor - step;
        let ghost orig = self.data@;
        let mut i: usize = 0;
        while i < left
            invariant
                i <= left,
                step + left <= self.data@.len(),
                step + left <= usize::MAX,
                step >= 1,
                self.data@.len() == orig.len(),
                forall|j: int| 0 <= j < i ==> self.data@[j] == orig[step + j],
                forall|j: int| i <= j < orig.len() ==> self.data@[j] == orig[j],
            decreases left - i,
        {
            let b = self.data[step + i];
            self.data.set(i, b);
            i += 1;
        }
        self.cursor = left;
        proof {
            assert(self@ =~= old(self)@.skip(step as int));
        }
    }

    fn read(&mut self, dst: &mut Vec<u8>, size: usize)
        ensures
            final(self).wf(),
            final(self)@ == old(self)@.skip(size as int),
            final(self).spec_capacity() == old(self).spec_capacity(),
    {
        let mut i: usize = 0;
        while i < size
            invariant
                i <= size,
                size <= self@.len(),
                size <= old(dst)@.len(),
                self.wf(),
                *self == *old(self),
                dst@.len() == old(dst)@.len(),
                forall|j: int| 0 <= j < i ==> dst@[j] == self@[j],
                forall|j: int| i <= j < dst@.len() ==> dst@[j] == old(dst)@[j],
            decreases size - i,
        {
            let b = self.data[i];
            dst.set(i, b);
            i += 1;
        }
        self.consume(size);
        proof {
            assert(dst@ =~= old(self)@.take(size as int) + old(dst)@.skip(size as int));
        }
    }
}

impl WriteBuf for Buffer {
    /// The linear engine can take exactly the bytes not yet written.
    open spec fn space(&self) -> nat {
        (self.spec_capacity() - self@.len()) as nat
    }

    fn remaining(&self) -> usize {
        Buffer::remaining(self)
    }

    /// Moving the cursor forward exposes bytes of storage as written
    /// without copying anything in; `set_len` does the same with an
    /// absolute cursor.
    fn advance(&mut self, step: usize)
        ensures
            final(self).wf(),
            final(self)@ == old(self).raw().take(old(self)@.len() + step),
            final(self).raw() == old(self).raw(),
            final(self).spec_capacity() == old(self).spec_capacity(),
    {
        let cap = self.data.len();
        proof {
            assert(self.cursor + step <= cap);
        }
        self.cursor = self.cursor + step;
        proof {
            assert(spill(old(self)@.len(), step as nat, old(self).spec_capacity()) == 0);
            assert(self@.take(old(self)@.len() as int) =~= old(self)@.skip(0));
        }
    }

    fn write(&mut self, src: &[u8])
        ensures
            final(self).wf(),
            final(self)@ == old(self)@ + src@,
            final(self).spec_capacity() == old(self).spec_capacity(),
    {
        let n = src.len();
        let cap = self.data.len();
        let ghost orig = self.data@;
        let mut i: usize = 0;
        while i < n
            invariant
                i <= n,
                self.cursor + n <= cap,
                cap == self.data@.len(),
                self.cursor == old(self).cursor,
                self.data@.len() == orig.len(),
                n == src@.len(),
                forall|j: int| 0 <= j < self.cursor ==> self.data@[j] == orig[j],
                forall|j: int| 0 <= j < i ==> self.data@[self.cursor + j] == src@[j],
            decreases n - i,
        {
            let b = src[i];
            self.data.set(self.cursor + i, b);
            i += 1;
        }
        self.advance(n);
        proof {
            assert(self@ =~= old(self)@ + src@);
            assert(spill(old(self)@.len(), src@.len(), old(self).spec_capacity()) == 0);
            assert((old(self)@ + src@).skip(0) =~= old(self)@ + src@);
        }
    }
}

impl crate::ContBuf for Buffer {
    fn as_read_slice(&self) -> &[u8] {
        Buffer::as_slice(self)
    }

    fn as_read_slice_mut(&mut self) -> &mut [u8] {
        Buffer::as_mut_slice(self)
    }

    /// The returned slice is the tail of the storage past the write
    /// cursor; once the caller has filled it, [`Buffer::set_len`] marks
    /// the filled bytes as written.
    fn as_write_slice(&mut self) -> (r: &mut [u8])
        ensures
            r@ == old(self).raw().skip(old(self)@.len() as int),
            final(r)@.len() == r@.len() ==> {
                &&& final(self).raw() == old(self)@ + final(r)@
                &&& final(self)@ == old(self)@
            },
    {
        self.data.as_mut_slice().split_at_mut(self.cursor).1
    }
}

/// Holds when `c` is an exact power of two.  Only such a capacity lets the
/// circular engine recover a physical offset from a logical cursor with a
/// single bitwise AND against `c - 1`.
pub open spec fn is_pow2(c: usize) -> bool {
    c != 0 && c & ((c - 1) as usize) == 0
}

/// For a power of two `c`, masking a cursor below `2 * c` with `c - 1` is
/// reduction modulo `c`: the cursor keeps its value, or loses exactly one
/// `c`.
proof fn lemma_pow2_mask(c: usize, x: usize)
    by (bit_vector)
    requires
        c != 0,
        c & ((c - 1) as usize) == 0,
        x < 2 * c,
    ensures
        x < c ==> x & ((c - 1) as usize) == x,
        x >= c ==> x & ((c - 1) as usize) == x - c,
{
}

/// A power of two that fits in `usize` is at most half the range: twice
/// the capacity, less one, still fits, so sums of two cursors below the
/// capacity never overflow.
proof fn lemma_pow2_half(c: usize)
    ensures
        is_pow2(c) ==> 2 * c - 1 <= usize::MAX,
{
    if is_pow2(c) {
        assert(((2 * c - 1) as usize) == 2 * c - 1) by (bit_vector)
            requires
                c != 0,
                c & ((c - 1) as usize) == 0,
        ;
    }
}

/// Adding the modulus changes nothing, and a small value is its own
/// remainder.
proof fn lemma_wrap_mod(x: int, c: int)
    requires
        c > 0,
        0 <= x,
    ensures
        (x + c) % c == x % c,
        x < c ==> x % c == x,
        0 <= x % c < c,
{
    vstd::arithmetic::div_mod::lemma_mod_add_multiples_vanish(x, c);
    if x < c {
        vstd::arithmetic::div_mod::lemma_small_mod(x as nat, c as nat);
    }
    vstd::arithmetic::div_mod::lemma_mod_division_less_than_divisor(x, c);
}

/// Splitting a remainder off the left summand changes nothing.
proof fn lemma_mod_in_parts(a: int, b: int, c: int)
    requires
        c > 0,
        0 <= a,
        0 <= b,
    ensures
        (a % c + b) % c == (a + b) % c,
        0 <= (a + b) % c < c,
{
    vstd::arithmetic::div_mod::lemma_add_mod_noop(a, b, c);
    vstd::arithmetic::div_mod::lemma_mod_twice(b, c);
    vstd::arithmetic::div_mod::lemma_add_mod_noop((a % c), b, c);
    vstd::arithmetic::div_mod::lemma_mod_twice(a, c);
    vstd::arithmetic::div_mod::lemma_mod_division_less_than_divisor(a + b, c);
    assert((a % c) % c == a % c);
    assert(((a % c) % c + b % c) % c == (a % c + b) % c);
}

/// Two offsets within one window of length `c` that land on the same
/// physical position are the same offset.
proof fn lemma_window_distinct(a: int, i: int, j: int, c: int)
    requires
        c > 0,
        0 <= a,
        0 <= i < c,
        0 <= j < c,
        (a + i) % c == (a + j) % c,
    ensures
        i == j,
{
    vstd::arithmetic::div_mod::lemma_fundamental_div_mod(a + i, c);
    vstd::arithmetic::div_mod::lemma_fundamental_div_mod(a + j, c);
    let q1 = (a + i) / c;
    let q2 = (a + j) / c;
    assert(i - j == c * (q1 - q2)) by (nonlinear_arith)
        requires
            a + i == c * q1 + (a + i) % c,
            a + j == c * q2 + (a + j) % c,
            (a + i) % c == (a + j) % c,
    ;
    assert(q1 == q2) by (nonlinear_arith)
        requires
            c > 0,
            -c < i - j < c,
            i - j == c * (q1 - q2),
    ;
}

/// What truncating a readable view of `contents` to `cursor` bytes leaves:
/// the prefix of length `cursor`, or everything when `cursor` is no shorter
/// than the contents.
pub open spec fn truncate_result(contents: Seq<u8>, cursor: nat) -> Seq<u8> {
    if cursor < contents.len() {
        contents.take(cursor as int)
    } else {
        contents
    }
}

/// Truncation laws: truncating to any length at or past the current one
/// changes nothing, and truncating twice to the same length is the same as
/// truncating once.
pub proof fn lemma_truncate_idempotent(contents: Seq<u8>, cursor: nat)
    ensures
        cursor >= contents.len() ==> truncate_result(contents, cursor) == contents,
        truncate_result(truncate_result(contents, cursor), cursor) == truncate_result(
            contents,
            cursor,
        ),
{
}

/// What a partially performed circular write leaves recoverable: the ring
/// held `c0`, the first `j` bytes of `src` have gone in, and whatever fell
/// past the capacity `cap` has spilled off the front.
spec fn ring_mid(c0: Seq<u8>, src: Seq<u8>, j: int, cap: nat) -> Seq<u8> {
    (c0 + src.take(j)).skip(spill(c0.len(), j as nat, cap))
}

/// The circular buffer engine: a [`Buffer`] of power-of-two capacity with
/// an added read cursor.
///
/// The wrapped buffer's write cursor and the extra read cursor both move
/// only forward; a cursor's physical storage offset is its value masked
/// with `capacity - 1`.  A write is never rejected: when the gap between
/// the cursors would pass the capacity, the oldest unread bytes are
/// silently consumed instead.  The cursors are kept reduced — the read
/// cursor below the capacity, the write cursor above it by at most the
/// unread count — which changes no observable behaviour.
pub struct Ring {
    buffer: Buffer,
    read: usize,
}

impl View for Ring {
    type V = Seq<u8>;

    /// The unread bytes, oldest first: the storage window from the read
    /// cursor to the write cursor, physical offsets taken modulo the
    /// capacity.
    closed spec fn view(&self) -> Seq<u8> {
        Seq::new(
            (self.buffer.cursor - self.read) as nat,
            |i: int| self.buffer.data@[(self.read + i) % (self.buffer.data@.len() as int)],
        )
    }
}

impl Ring {
    /// The full backing storage.
    pub closed spec fn raw(&self) -> Seq<u8> {
        self.buffer.data@
    }

    /// The fixed size of the storage in bytes.
    pub closed spec fn spec_capacity(&self) -> nat {
        self.buffer.data@.len()
    }

    /// The read cursor.
    pub closed spec fn read_idx(&self) -> nat {
        self.read as nat
    }

    /// The write cursor.
    pub closed spec fn write_idx(&self) -> nat {
        self.buffer.cursor as nat
    }

    /// Well-formed: the capacity is a power of two, the read cursor is
    /// reduced below it, and the write cursor is past the read cursor by
    /// at most the capacity.
    pub closed spec fn wf(&self) -> bool {
        &&& self.buffer.data@.len() <= usize::MAX
        &&& is_pow2(self.buffer.data@.len() as usize)
        &&& self.read < self.buffer.data@.len()
        &&& self.read <= self.buffer.cursor
        &&& self.buffer.cursor <= self.read + self.buffer.data@.len()
    }

    /// Relates the readable view to the storage model.
    pub proof fn lemma_model(&self)
        requires
            self.wf(),
        ensures
            self@.len() == self.write_idx() - self.read_idx(),
            self@.len() <= self.spec_capacity(),
            self.raw().len() == self.spec_capacity(),
            self.read_idx() < self.spec_capacity(),
            forall|i: int|
                0 <= i < self@.len() ==> self@[i] == self.raw()[(self.read_idx() + i) % (
                self.spec_capacity() as int)],
    {
    }

    /// Creates an empty ring over `capacity` bytes of storage.
    pub fn new(capacity: usize) -> (r: Self)
        requires
            is_pow2(capacity),
        ensures
            r.wf(),
            r@ == Seq::<u8>::empty(),
            r.spec_capacity() == capacity,
    {
        let r = Ring { buffer: Buffer::new(capacity), read: 0 };
        proof {
            assert(r@ =~= Seq::<u8>::empty());
        }
        r
    }

    /// Rebuilds a ring from a buffer and a read cursor: the buffer's
    /// cursor becomes the write cursor, so the bytes of the buffer from
    /// `read` on are the unread bytes of the ring.
    pub fn from_parts(buffer: Buffer, read: usize) -> (r: Self)
        requires
            buffer.wf(),
            is_pow2(buffer.spec_capacity() as usize),
            read <= buffer@.len(),
        ensures
            r.wf(),
            r@ == buffer@.skip(read as int),
            r.spec_capacity() == buffer.spec_capacity(),
            r.raw() == buffer.raw(),
    {
        let mut buffer = buffer;
        let mut read = read;
        let cap = buffer.data.len();
        if read >= cap {
            read -= cap;
            buffer.cursor -= cap;
        }
        let r = Ring { buffer, read };
        proof {
            let c = cap as int;
            assert forall|i: int|
                0 <= i < r@.len() implies r@[i] == buffer@.skip(read as int)[i] by {
                lemma_wrap_mod(read + i, c);
            }
            assert(r@ =~= buffer@.skip(read as int));
        }
        r
    }

    /// Splits the ring into the buffer that carries its storage and write
    /// cursor, and the read cursor.
    pub fn into_parts(self) -> (r: (Buffer, usize))
        ensures
            r.0.raw() == self.raw(),
            r.0.spec_len() == self.write_idx(),
            r.1 == self.read_idx(),
    {
        (self.buffer, self.read)
    }

    /// Returns the number of unread bytes.
    pub fn len(&self) -> (r: usize)
        requires
            self.wf(),
        ensures
            r == self@.len(),
    {
        self.buffer.cursor - self.read
    }

    /// Returns whether no unread bytes are left.
    pub fn is_empty(&self) -> (r: bool)
        requires
            self.wf(),
        ensures
            r <==> self@.len() == 0,
    {
        self.buffer.cursor == self.read
    }

    /// Returns whether the unread bytes fill the whole storage.
    pub fn is_full(&self) -> (r: bool)
        requires
            self.wf(),
        ensures
            r <==> self@.len() == self.spec_capacity(),
    {
        let l = self.buffer.cursor - self.read;
        self.buffer.data.len() == l
    }

    /// Returns an iterator over the unread bytes.
    pub fn iter<'a>(&'a self) -> (r: crate::iter::Iter<'a, Ring>)
        requires
            self.wf(),
        ensures
            r.wf(),
            r.remaining_bytes() == self@,
    {
        let l = Ring::len(self);
        let r = crate::iter::Iter::new(self, 0, l);
        proof {
            assert(self@.subrange(0, l as int) =~= self@);
        }
        r
    }

    /// Writes all of `src`: the copy wraps across the physical end of the
    /// storage, and when the new bytes do not fit beside the unread ones,
    /// the oldest unread bytes are silently spilled.  With more than a
    /// whole capacity of input the copy wraps around repeatedly and only
    /// the last `capacity` bytes of `src` remain recoverable.
    pub fn write(&mut self, src: &[u8])
        requires
            old(self).wf(),
        ensures
            final(self).wf(),
            final(self).spec_capacity() == old(self).spec_capacity(),
            final(self)@ == (old(self)@ + src@).skip(
                spill(old(self)@.len(), src@.len(), old(self).spec_capacity()),
            ),
    {
        let cap = self.buffer.data.len();
        proof {
            lemma_pow2_half(cap);
        }
        let n = src.len();
        let len0 = self.buffer.cursor - self.read;
        let ghost c0 = self@;
        let ghost r0 = self.read as int;
        let ghost w0 = self.buffer.cursor as int;
        let ghost c = cap as int;
        let mut p = self.mask_idx(self.buffer.cursor);
        proof {
            assert(c0 + src@.take(0) =~= c0);
            assert(ring_mid(c0, src@, 0, cap as nat) =~= c0);
        }
        let mut i: usize = 0;
        while i < n
            invariant
                i <= n,
                n == src@.len(),
                self.wf(),
                self.read as int == r0,
                self.buffer.cursor as int == w0,
                self.buffer.data@.len() == c,
                cap as int == c,
                c0.len() == len0,
                len0 == w0 - r0,
                0 <= r0 < c,
                w0 <= r0 + c,
                p as int == (w0 + i) % c,
                p < cap,
                forall|t: int|
                    0 <= t < ring_mid(c0, src@, i as int, cap as nat).len()
                        ==> self.buffer.data@[(r0 + spill(c0.len(), i as nat, cap as nat) + t)
                        % c] == ring_mid(c0, src@, i as int, cap as nat)[t],
            decreases n - i,
        {
            let ghost e_i = spill(c0.len(), i as nat, cap as nat);
            let ghost mid_i = ring_mid(c0, src@, i as int, cap as nat);
            let b = src[i];
            self.buffer.data.set(p, b);
            proof {
                let e_j = spill(c0.len(), (i + 1) as nat, cap as nat);
                let mid_j = ring_mid(c0, src@, i + 1, cap as nat);
                if len0 + i < c {
                    assert(e_i == 0 && e_j == 0);
                    assert forall|t: int|
                        0 <= t < mid_j.len() implies self.buffer.data@[(r0 + e_j + t) % c]
                        == mid_j[t] by {
                        if t < mid_i.len() {
                            if (r0 + t) % c == (w0 + i) % c {
                                lemma_window_distinct(r0, t, len0 + i, c);
                            }
                            assert(mid_j[t] == mid_i[t]);
                        } else {
                            assert((r0 + t) % c == (w0 + i) % c);
                            assert(mid_j[t] == src@[i as int]);
                        }
                    }
                } else {
                    assert(e_i == len0 + i - c && e_j == e_i + 1);
                    assert(mid_i.len() == c && mid_j.len() == c);
                    lemma_wrap_mod(r0 + e_i, c);
                    assert((w0 + i) % c == (r0 + e_i) % c);
                    assert forall|t: int|
                        0 <= t < mid_j.len() implies self.buffer.data@[(r0 + e_j + t) % c]
                        == mid_j[t] by {
                        if t < c - 1 {
                            if (r0 + e_i + (1 + t)) % c == (r0 + e_i) % c {
                                lemma_window_distinct(r0 + e_i, 1 + t, 0, c);
                            }
                            assert(mid_j[t] == mid_i[t + 1]);
                        } else {
                            lemma_wrap_mod(r0 + e_i, c);
                            assert((r0 + e_j + t) % c == (r0 + e_i) % c);
                            assert(mid_j[t] == src@[i as int]);
                        }
                    }
                }
                lemma_mod_in_parts(w0 + i, 1, c);
            }
            p = if p + 1 == cap {
                0
            } else {
                p + 1
            };
            proof {
                if p == 0 {
                    vstd::arithmetic::div_mod::lemma_mod_self_0(c);
                } else {
                    lemma_wrap_mod(((w0 + i) % c) + 1, c);
                }
            }
            i += 1;
        }
        let room = cap - len0;
        let excess: usize = if n > room {
            n - room
        } else {
            0
        };
        let new_len: usize = if n > room {
            cap
        } else {
            len0 + n
        };
        let e_m = excess % cap;
        let mut nr = self.read + e_m;
        if nr >= cap {
            nr -= cap;
        }
        self.read = nr;
        self.buffer.cursor = nr + new_len;
        proof {
            let e = spill(c0.len(), n as nat, cap as nat);
            let em = e_m as int;
            assert(excess as int == e);
            lemma_mod_in_parts(excess as int, r0, c);
            lemma_wrap_mod(r0 + em, c);
            if r0 + em >= c {
                lemma_wrap_mod(r0 + em - c, c);
            }
            assert(self.read as int == (r0 + e) % c);
            assert(src@.take(n as int) =~= src@);
            assert forall|t: int|
                0 <= t < self@.len() implies self@[t] == ((c0 + src@).skip(e))[t] by {
                let mid = ring_mid(c0, src@, n as int, cap as nat);
                assert(mid.len() == len0 + n - e);
                assert(self@.len() == len0 + n - e);
                assert(self.buffer.data@[(r0 + spill(c0.len(), n as nat, cap as nat) + t) % c]
                    == mid[t]);
                lemma_mod_in_parts(r0 + e, t, c);
                assert(self@[t] == self.buffer.data@[(self.read + t) % c]);
                assert(mid[t] == ((c0 + src@).skip(e))[t]);
            }
            assert(self@ =~= (c0 + src@).skip(e));
        }
    }

    /// The physical storage offset of logical cursor `idx`, computed by
    /// masking with `capacity - 1`.
    fn mask_idx(&self, idx: usize) -> (r: usize)
        requires
            self.wf(),
            idx < 2 * self.spec_capacity(),
        ensures
            r == (idx as int) % (self.spec_capacity() as int),
            r < self.spec_capacity(),
    {
        let cap = self.buffer.data.len();
        proof {
            lemma_pow2_mask(cap, idx);
            lemma_wrap_mod(idx as int, cap as int);
            if idx >= cap {
                lemma_wrap_mod(idx as int - cap as int, cap as int);
            }
        }
        idx & (cap - 1)
    }
}

impl Buf for Ring {
    open spec fn inv(&self) -> bool {
        self.wf()
    }

    open spec fn cap(&self) -> nat {
        self.spec_capacity()
    }

    open spec fn contents(&self) -> Seq<u8> {
        self@
    }

    proof fn lemma_contents_within_capacity(&self) {
    }

    fn capacity(&self) -> usize {
        self.buffer.data.len()
    }

    fn len(&self) -> usize {
        Ring::len(self)
    }

    fn get(&self, index: usize) -> u8 {
        let cap = self.buffer.data.len();
        proof {
            lemma_pow2_half(cap);
        }
        let pos = self.mask_idx(self.read + index);
        self.buffer.data[pos]
    }

    fn set(&mut self, index: usize, value: u8) {
        let cap = self.buffer.data.len();
        proof {
            lemma_pow2_half(cap);
        }
        let pos = self.mask_idx(self.read + index);
        self.buffer.data.set(pos, value);
        proof {
            let c = cap as int;
            assert forall|j: int|
                0 <= j < self@.len() implies self@[j] == old(self)@.update(index as int, value)[j]
                by {
                if j != index && (self.read + j) % c == (self.read + index) % c {
                    lemma_window_distinct(self.read as int, j, index as int, c);
                }
            }
            assert(self@ =~= old(self)@.update(index as int, value));
        }
    }
}

impl ReadBuf for Ring {
    /// Returns the number of unread bytes.
    fn available(&self) -> usize {
        Ring::len(self)
    }

    /// Retiring bytes only moves the read cursor; nothing is copied.
    fn consume(&mut self, step: usize)
        ensures
            final(self).wf(),
            final(self)@ == old(self)@.skip(step as int),
            final(self).spec_capacity() == old(self).spec_capacity(),
            final(self).raw() == old(self).raw(),
    {
        let cap = self.buffer.data.len();
        proof {
            lemma_pow2_half(cap);
        }
        self.read = self.read + step;
        if self.read >= cap {
            self.read -= cap;
            self.buffer.cursor -= cap;
        }
        proof {
            let c = cap as int;
            assert forall|i: int|
                0 <= i < self@.len() implies self@[i] == old(self)@.skip(step as int)[i] by {
                if old(self).read + step >= cap {
                    lemma_wrap_mod(self.read + i, c);
                }
            }
            assert(self@ =~= old(self)@.skip(step as int));
        }
    }

    fn read(&mut self, dst: &mut Vec<u8>, size: usize)
        ensures
            final(self).wf(),
            final(self)@ == old(self)@.skip(size as int),
            final(self).spec_capacity() == old(self).spec_capacity(),
            final(self).raw() == old(self).raw(),
    {
        let cap = self.buffer.data.len();
        let mut i: usize = 0;
        while i < size
            invariant
                i <= size,
                self.wf(),
                *self == *old(self),
                cap == self.buffer.data@.len(),
                size <= self@.len(),
                size <= old(dst)@.len(),
                dst@.len() == old(dst)@.len(),
                forall|j: int| 0 <= j < i ==> dst@[j] == self@[j],
                forall|j: int| i <= j < dst@.len() ==> dst@[j] == old(dst)@[j],
            decreases size - i,
        {
            proof {
                lemma_pow2_half(cap);
            }
            let pos = self.mask_idx(self.read + i);
            let b = self.buffer.data[pos];
            dst.set(i, b);
            i += 1;
        }
        self.consume(size);
        proof {
            assert(dst@ =~= old(self)@.take(size as int) + old(dst)@.skip(size as int));
        }
    }
}

impl WriteBuf for Ring {
    /// A single write may always hand over a whole capacity of bytes: the
    /// circular engine never reports the storage as full.
    open spec fn space(&self) -> nat {
        self.spec_capacity()
    }

    fn remaining(&self) -> usize {
        self.buffer.data.len()
    }

    /// Moving the write cursor may push the gap between the cursors past
    /// the capacity; the read cursor is then dragged along, silently
    /// consuming the bytes that were overwritten.
    fn advance(&mut self, step: usize)
        ensures
            final(self).wf(),
            final(self).spec_capacity() == old(self).spec_capacity(),
            final(self).raw() == old(self).raw(),
    {
        let cap = self.buffer.data.len();
        proof {
            lemma_pow2_half(cap);
        }
        let len0 = self.buffer.cursor - self.read;
        let room = cap - len0;
        if step > room {
            let excess = step - room;
            self.read = self.read + excess;
            if self.read >= cap {
                self.read -= cap;
            }
            self.buffer.cursor = self.read + cap;
        } else {
            self.buffer.cursor = self.buffer.cursor + step;
        }
        proof {
            let c = cap as int;
            let e = spill(old(self)@.len(), step as nat, old(self).spec_capacity());
            assert forall|i: int|
                0 <= i < old(self)@.len() - e implies self@[i] == old(self)@.skip(e)[i] by {
                if old(self).read + (step - room) >= cap {
                    lemma_wrap_mod(self.read + i, c);
                }
            }
            assert(self@.take(old(self)@.len() - e) =~= old(self)@.skip(e));
        }
    }

    fn write(&mut self, src: &[u8]) {
        Ring::write(self, src);
        proof {
            assert((old(self)@ + src@).skip(
                spill(old(self)@.len(), src@.len(), old(self).spec_capacity()),
            ) == (old(self).contents() + src@).skip(
                spill(old(self).contents().len(), src@.len(), old(self).cap()),
            ));
        }
    }
}

} // verus!
