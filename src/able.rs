use vstd::prelude::*;

use crate::buffer::Buffer;
use crate::bytes::Bytes;
use crate::number::NumberAble;

verus! {

/// Any byte source treated alike: raw slices, `Bytes` views and whole
/// buffers can be measured, indexed, sliced and copied out the same way.
/// `slice` here always returns a new owned `Buffer`; for `Bytes` and
/// `Buffer` it shares their storage, for a raw slice it holds a copy.
pub trait BytesAble: NumberAble {
    fn is_empty(&self) -> (r: bool)
        ensures
            r == (self.content().len() == 0),
    {
        self.len() == 0
    }

    /// The bytes in `[from, to)`, as a buffer of their own.
    fn slice(&self, from: usize, to: usize) -> (r: Buffer)
        requires
            from <= to <= self.content().len(),
        ensures
            r@ == self.content().subrange(from as int, to as int),
    ;

    fn slice_from(&self, from: usize) -> (r: Buffer)
        requires
            from <= self.content().len(),
        ensures
            r@ == self.content().subrange(from as int, self.content().len() as int),
    {
        let n = self.len();
        self.slice(from, n)
    }

    fn slice_to(&self, to: usize) -> (r: Buffer)
        requires
            to <= self.content().len(),
        ensures
            r@ == self.content().subrange(0, to as int),
    {
        self.slice(0, to)
    }

    /// The byte at `i`.
    fn at(&self, i: usize) -> (r: u8)
        requires
            i < self.content().len(),
        ensures
            r == self.content()[i as int],
    ;

    /// Hands each byte, in order, to `cb`.
    fn for_each<F: FnMut(&u8)>(&self, cb: &mut F)
        requires
            forall|b: &u8| call_requires(*old(cb), (b,)),
    {
        let n = self.len();
        let mut i: usize = 0;
        while i < n
            invariant
                i <= n,
                n == self.content().len(),
                forall|b: &u8| call_requires(*cb, (b,)),
            decreases n - i,
        {
            let b = self.at(i);
            cb(&b);
            i = i + 1;
        }
    }

    /// A fresh vector holding a copy of every byte.
    fn to_vec(&self) -> (r: Vec<u8>)
        ensures
            r@ == self.content(),
    {
        let n = self.len();
        let mut v: Vec<u8> = vec![0u8; n];
        self.copy_to_slice(0, v.as_mut_slice());
        assert(v@ =~= self.content());
        v
    }

    /// A new `Bytes` over a copy of every byte.
    fn to_bytes(&self) -> (r: Bytes)
        ensures
            r@ == self.content(),
    {
        Bytes::from_vec(self.to_vec())
    }

    /// A new one-chunk buffer over a copy of every byte.
    fn to_buffer(&self) -> (r: Buffer)
        ensures
            r@ == self.content(),
    {
        Buffer::from(self.to_bytes())
    }
}

impl BytesAble for [u8] {
    fn slice(&self, from: usize, to: usize) -> (r: Buffer) {
        let part = vstd::slice::slice_subrange(self, from, to);
        Buffer::from(Bytes::from_vec(vstd::slice::slice_to_vec(part)))
    }

    fn at(&self, i: usize) -> (r: u8) {
        self[i]
    }
}

impl BytesAble for Bytes {
    fn slice(&self, from: usize, to: usize) -> (r: Buffer) {
        Buffer::from(Bytes::slice(self, from, to))
    }

    fn at(&self, i: usize) -> (r: u8) {
        Bytes::at(self, i)
    }
}

impl BytesAble for Buffer {
    fn slice(&self, from: usize, to: usize) -> (r: Buffer) {
        Buffer::slice(self, from, to)
    }

    fn at(&self, i: usize) -> (r: u8) {
        let s = Buffer::slice_at(self, i);
        s[0]
    }
}

} // verus!
