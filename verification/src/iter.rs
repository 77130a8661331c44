//! Iteration over byte buffers.

use vstd::prelude::*;

use crate::Buf;

verus! {

/// A forward and backward iterator over a byte buffer's bytes, bounded to
/// a half-open range that is fixed at construction.
#[derive(Clone, Copy)]
pub struct Iter<'a, T: Buf> {
    inner: &'a T,
    cursor: usize,
    len: usize,
}

impl<'a, T: Buf> Iter<'a, T> {
    /// Well-formed: the range lies within the buffer's contents.
    pub closed spec fn wf(&self) -> bool {
        &&& self.inner.inv()
        &&& self.cursor <= self.len
        &&& self.len <= self.inner.contents().len()
    }

    /// The bytes not yet handed out, front to back.
    pub closed spec fn remaining_bytes(&self) -> Seq<u8> {
        self.inner.contents().subrange(self.cursor as int, self.len as int)
    }

    /// Creates an iterator over `inner`'s bytes in the range `[from, to)`.
    pub fn new(inner: &'a T, from: usize, to: usize) -> (r: Self)
        requires
            inner.inv(),
            from <= to,
            to <= inner.contents().len(),
        ensures
            r.wf(),
            r.remaining_bytes() == inner.contents().subrange(from as int, to as int),
    {
        Iter { inner, cursor: from, len: to }
    }

    /// Hands out the byte at the front of the range, or nothing once the
    /// range is exhausted.
    pub fn next(&mut self) -> (r: Option<u8>)
        requires
            old(self).wf(),
        ensures
            final(self).wf(),
            match r {
                Some(b) => {
                    &&& old(self).remaining_bytes().len() > 0
                    &&& b == old(self).remaining_bytes()[0]
                    &&& final(self).remaining_bytes() == old(self).remaining_bytes().skip(1)
                },
                None => {
                    &&& old(self).remaining_bytes().len() == 0
                    &&& final(self).remaining_bytes() == old(self).remaining_bytes()
                },
            },
    {
        if self.cursor != self.len {
            let idx = self.cursor;
            self.cursor += 1;
            let b = self.inner.get(idx);
            proof {
                assert(self.remaining_bytes() =~= old(self).remaining_bytes().skip(1));
            }
            Some(b)
        } else {
            None
        }
    }

    /// Hands out the byte at the back of the range, or nothing once the
    /// range is exhausted.
    pub fn next_back(&mut self) -> (r: Option<u8>)
        requires
            old(self).wf(),
        ensures
            final(self).wf(),
            match r {
                Some(b) => {
                    &&& old(self).remaining_bytes().len() > 0
                    &&& b == old(self).remaining_bytes().last()
                    &&& final(self).remaining_bytes() == old(self).remaining_bytes().drop_last()
                },
                None => {
                    &&& old(self).remaining_bytes().len() == 0
                    &&& final(self).remaining_bytes() == old(self).remaining_bytes()
                },
            },
    {
        if self.cursor != self.len {
            self.len -= 1;
            let b = self.inner.get(self.len);
            proof {
                assert(self.remaining_bytes() =~= old(self).remaining_bytes().drop_last());
            }
            Some(b)
        } else {
            None
        }
    }

    /// The number of bytes still to hand out, as an exact lower and upper
    /// bound.
    pub fn size_hint(&self) -> (r: (usize, Option<usize>))
        requires
            self.wf(),
        ensures
            r.0 == self.remaining_bytes().len(),
            r.1 == Some(r.0),
    {
        let size = self.len - self.cursor;
        (size, Some(size))
    }

    /// Returns the number of bytes still to hand out, taking the iterator.
    pub fn count(self) -> (r: usize)
        requires
            self.wf(),
        ensures
            r == self.remaining_bytes().len(),
    {
        self.len - self.cursor
    }

    /// Returns the last byte of the range, or nothing when it is empty.
    pub fn last(self) -> (r: Option<u8>)
        requires
            self.wf(),
        ensures
            match r {
                Some(b) => self.remaining_bytes().len() > 0 && b
                    == self.remaining_bytes().last(),
                None => self.remaining_bytes().len() == 0,
            },
    {
        let mut it = self;
        it.next_back()
    }

    /// Returns the number of bytes still to hand out.
    pub fn len(&self) -> (r: usize)
        requires
            self.wf(),
        ensures
            r == self.remaining_bytes().len(),
    {
        self.len - self.cursor
    }
}

} // verus!
