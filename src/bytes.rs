use std::sync::Arc;
use vstd::prelude::*;
use vstd::slice::slice_subrange;

verus! {

/// An immutable window `[begin, end)` into a byte vector that any number of
/// views share. Slicing makes a new window over the same vector and copies
/// no byte; narrowing moves this view's own bounds and leaves every other
/// view as it was.
#[derive(Debug)]
pub struct Bytes {
    arc: Arc<Vec<u8>>,
    begin: usize,
    end: usize,
}

impl View for Bytes {
    type V = Seq<u8>;

    closed spec fn view(&self) -> Seq<u8> {
        self.arc@.subrange(self.begin as int, self.end as int)
    }
}

/// A value that can become a `Bytes`, by handing its storage over or by copying.
pub trait IntoBytes: Sized {
    /// The bytes that the conversion yields.
    spec fn source_bytes(&self) -> Seq<u8>;

    fn into_bytes(self) -> (r: Bytes)
        ensures
            r@ == self.source_bytes(),
    ;
}

/// Relies on `Arc::clone`: the new handle points at the same vector, so it
/// holds the same bytes.
#[verifier::external_body]
fn share(arc: &Arc<Vec<u8>>) -> (r: Arc<Vec<u8>>)
    ensures
        r@ == arc@,
{
    Arc::clone(arc)
}

impl Bytes {
    #[verifier::type_invariant]
    spec fn window_in_storage(self) -> bool {
        self.begin <= self.end <= self.arc@.len()
    }

    /// Builds a view from anything that converts into one.
    pub fn from<T: IntoBytes>(src: T) -> (r: Bytes)
        ensures
            r@ == src.source_bytes(),
    {
        src.into_bytes()
    }

    /// Takes the vector over as new shared storage; no byte is copied.
    pub fn from_vec(src: Vec<u8>) -> (r: Bytes)
        ensures
            r@ == src@,
    {
        let end = src.len();
        Bytes { begin: 0, end, arc: Arc::new(src) }
    }

    /// Views the whole of a vector that is already shared; no byte is copied.
    pub fn from_arc_vec(src: Arc<Vec<u8>>) -> (r: Bytes)
        ensures
            r@ == src@,
    {
        let end = src.len();
        Bytes { begin: 0, end, arc: src }
    }

    /// The shared storage behind this view, of which the view is a window.
    pub fn storage(&self) -> (r: &Arc<Vec<u8>>)
        ensures
            exists|b: int|
                0 <= b && b + self@.len() <= r@.len() && #[trigger] r@.subrange(b, b + self@.len())
                    == self@,
    {
        proof {
            use_type_invariant(self);
            assert(self.arc@.subrange(self.begin as int, self.begin + self@.len()) == self@);
        }
        &self.arc
    }

    pub fn len(&self) -> (r: usize)
        ensures
            r == self@.len(),
    {
        proof {
            use_type_invariant(self);
        }
        self.end - self.begin
    }

    pub fn is_empty(&self) -> (r: bool)
        ensures
            r == (self@.len() == 0),
    {
        self.len() == 0
    }

    /// The byte at position `i` of the view.
    pub fn at(&self, i: usize) -> (r: u8)
        requires
            i < self@.len(),
        ensures
            r == self@[i as int],
    {
        proof {
            use_type_invariant(self);
        }
        let v: &Vec<u8> = &*self.arc;
        v[self.begin + i]
    }

    /// A new view of `[from, to)` of this one, over the same storage.
    pub fn slice(&self, from: usize, to: usize) -> (r: Bytes)
        requires
            from <= to <= self@.len(),
        ensures
            r@ == self@.subrange(from as int, to as int),
            forall|j: int| 0 <= j < to - from ==> #[trigger] r@[j] == self@[from + j],
    {
        proof {
            use_type_invariant(self);
        }
        let r = Bytes { arc: share(&self.arc), begin: self.begin + from, end: self.begin + to };
        assert(r@ =~= self@.subrange(from as int, to as int));
        r
    }

    pub fn slice_from(&self, from: usize) -> (r: Bytes)
        requires
            from <= self@.len(),
        ensures
            r@ == self@.subrange(from as int, self@.len() as int),
    {
        let len = self.len();
        self.slice(from, len)
    }

    pub fn slice_to(&self, to: usize) -> (r: Bytes)
        requires
            to <= self@.len(),
        ensures
            r@ == self@.subrange(0, to as int),
    {
        self.slice(0, to)
    }

    /// Borrows the bytes from `from` to the end of the view.
    pub fn slice_at(&self, from: usize) -> (r: &[u8])
        requires
            from <= self@.len(),
        ensures
            r@ == self@.subrange(from as int, self@.len() as int),
    {
        proof {
            use_type_invariant(self);
        }
        let v: &Vec<u8> = &*self.arc;
        let r = slice_subrange(v.as_slice(), self.begin + from, self.end);
        assert(r@ =~= self@.subrange(from as int, self@.len() as int));
        r
    }

    /// Drops the first `from` bytes from this view, in place.
    pub fn truncate_from(&mut self, from: usize)
        requires
            from <= old(self)@.len(),
        ensures
            final(self)@ == old(self)@.subrange(from as int, old(self)@.len() as int),
    {
        proof {
            use_type_invariant(&*self);
        }
        self.begin = self.begin + from;
        assert(self@ =~= old(self)@.subrange(from as int, old(self)@.len() as int));
    }

    /// Keeps only the first `to` bytes of this view, in place.
    pub fn truncate_to(&mut self, to: usize)
        requires
            to <= old(self)@.len(),
        ensures
            final(self)@ == old(self)@.subrange(0, to as int),
    {
        proof {
            use_type_invariant(&*self);
        }
        self.end = self.begin + to;
        assert(self@ =~= old(self)@.subrange(0, to as int));
    }

    /// Narrows this view, in place, to `[from, to)` of what it was.
    pub fn truncate(&mut self, from: usize, to: usize)
        requires
            from <= to <= old(self)@.len(),
        ensures
            final(self)@ == old(self)@.subrange(from as int, to as int),
    {
        self.truncate_to(to);
        self.truncate_from(from);
        assert(self@ =~= old(self)@.subrange(from as int, to as int));
    }

    /// Splits at `from`: this view keeps the bytes before it and the
    /// returned view, over the same storage, holds the rest.
    pub fn take_from(&mut self, from: usize) -> (r: Bytes)
        requires
            from <= old(self)@.len(),
        ensures
            r@ == old(self)@.subrange(from as int, old(self)@.len() as int),
            final(self)@ == old(self)@.subrange(0, from as int),
            final(self)@ + r@ == old(self)@,
    {
        let r = self.slice_from(from);
        self.truncate_to(from);
        assert(self@ + r@ =~= old(self)@);
        r
    }

    /// Splits at `to`: the returned view, over the same storage, holds the
    /// bytes before it and this view keeps the rest.
    pub fn take_to(&mut self, to: usize) -> (r: Bytes)
        requires
            to <= old(self)@.len(),
        ensures
            r@ == old(self)@.subrange(0, to as int),
            final(self)@ == old(self)@.subrange(to as int, old(self)@.len() as int),
            r@ + final(self)@ == old(self)@,
    {
        let r = self.slice_to(to);
        self.truncate_from(to);
        assert(r@ + self@ =~= old(self)@);
        r
    }

    /// Hands each byte of the view, in order, to `cb`.
    pub fn for_each<F: FnMut(&u8)>(&self, cb: &mut F)
        requires
            forall|b: &u8| call_requires(*old(cb), (b,)),
    {
        proof {
            use_type_invariant(self);
        }
        let n = self.len();
        let mut i: usize = 0;
        while i < n
            invariant
                i <= n,
                n == self@.len(),
                forall|b: &u8| call_requires(*cb, (b,)),
            decreases n - i,
        {
            let b = self.at(i);
            cb(&b);
            i = i + 1;
        }
    }

    /// Copies `target.len()` bytes, starting at `from`, into `target`.
    pub fn copy_to_slice(&self, from: usize, target: &mut [u8])
        requires
            from + old(target)@.len() <= self@.len(),
        ensures
            final(target)@ == self@.subrange(from as int, from + old(target)@.len()),
    {
        let n = target.len();
        self.copy_range_into(from, target, 0, n);
        assert(target@ =~= self@.subrange(from as int, from + n));
    }

    /// Copies the `count` bytes at `from` into `target[at..at + count]` and
    /// leaves the rest of `target` as it was.
    pub(crate) fn copy_range_into(&self, from: usize, target: &mut [u8], at: usize, count: usize)
        requires
            from + count <= self@.len(),
            at + count <= old(target)@.len(),
        ensures
            final(target)@ == old(target)@.subrange(0, at as int) + self@.subrange(
                from as int,
                from + count,
            ) + old(target)@.subrange(at + count, old(target)@.len() as int),
    {
        proof {
            use_type_invariant(self);
        }
        let v: &Vec<u8> = &*self.arc;
        let start = self.begin + from;
        let tl = target.len();
        let mut i: usize = 0;
        while i < count
            invariant
                i <= count,
                target@.len() == old(target)@.len(),
                tl == target@.len(),
                at + count <= target@.len(),
                start == self.begin + from,
                from + count <= self@.len(),
                v@ == self.arc@,
                self.begin <= self.end <= self.arc@.len(),
                forall|j: int| 0 <= j < at ==> target@[j] == old(target)@[j],
                forall|j: int| at + count <= j < target@.len() ==> target@[j] == old(target)@[j],
                forall|j: int| at <= j < at + i ==> #[trigger] target@[j] == self@[from + j - at],
            decreases count - i,
        {
            target[at + i] = v[start + i];
            i = i + 1;
        }
        assert(target@ =~= old(target)@.subrange(0, at as int) + self@.subrange(
            from as int,
            from + count,
        ) + old(target)@.subrange(at + count, old(target)@.len() as int));
    }
}

impl Clone for Bytes {
    /// A second view of the same window, over the same storage.
    fn clone(&self) -> (r: Bytes)
        ensures
            r@ == self@,
    {
        proof {
            use_type_invariant(self);
        }
        Bytes { arc: share(&self.arc), begin: self.begin, end: self.end }
    }
}

impl std::ops::Index<usize> for Bytes {
    type Output = u8;

    fn index(&self, i: usize) -> (r: &u8)
        ensures
            *r == self@[i as int],
    {
        proof {
            use_type_invariant(self);
        }
        let v: &Vec<u8> = &*self.arc;
        &v[self.begin + i]
    }
}

impl vstd::std_specs::core::IndexSpecImpl<usize> for Bytes {
    open spec fn index_req(&self, i: &usize) -> bool {
        *i < self@.len()
    }
}

impl IntoBytes for Vec<u8> {
    open spec fn source_bytes(&self) -> Seq<u8> {
        self@
    }

    fn into_bytes(self) -> (r: Bytes) {
        Bytes::from_vec(self)
    }
}

impl IntoBytes for Arc<Vec<u8>> {
    open spec fn source_bytes(&self) -> Seq<u8> {
        self@
    }

    fn into_bytes(self) -> (r: Bytes) {
        Bytes::from_arc_vec(self)
    }
}

impl<'a> IntoBytes for &'a [u8] {
    open spec fn source_bytes(&self) -> Seq<u8> {
        self@
    }

    fn into_bytes(self) -> (r: Bytes) {
        Bytes::from_vec(vstd::slice::slice_to_vec(self))
    }
}

} // verus!
