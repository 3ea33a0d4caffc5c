use std::collections::VecDeque;
use vstd::prelude::*;

use crate::bytes::{Bytes, IntoBytes};
use crate::coalesce::{coalesced, defragmented, lemma_defragmented, merge_step};
use crate::flat::{
    lemma_chunk_in_flatten, lemma_flatten_drop_last, lemma_flatten_len, prefix_len, sum_lens,
};
use vstd::math::min;
use vstd::seq_lib::lemma_flatten_concat;

verus! {

/// Chunks shorter than this are copied onto the end of the last chunk when
/// pushed, instead of being kept on their own.
pub const MIN_UNIT_SIZE: usize = 64;

/// The views of a run of chunks.
pub open spec fn views(q: Seq<Bytes>) -> Seq<Seq<u8>> {
    q.map_values(|b: Bytes| b@)
}

/// What is left of `s` once its first `n` bytes are dropped: nothing, when
/// `n` reaches past the end.
pub open spec fn advanced(s: Seq<u8>, n: nat) -> Seq<u8> {
    if n >= s.len() {
        Seq::empty()
    } else {
        s.subrange(n as int, s.len() as int)
    }
}

/// One logical run of bytes held as an ordered list of `Bytes` chunks.
#[derive(Debug)]
pub struct Buffer {
    chunks: VecDeque<Bytes>,
}

impl View for Buffer {
    type V = Seq<u8>;

    /// The chunks' bytes, front to back, as one sequence.
    open spec fn view(&self) -> Seq<u8> {
        self.chunks().flatten()
    }
}

proof fn lemma_views_push(q: Seq<Bytes>, b: Bytes)
    ensures
        views(q.push(b)) == views(q).push(b@),
{
    assert(views(q.push(b)) =~= views(q).push(b@));
}

proof fn lemma_views_drop_last(q: Seq<Bytes>)
    requires
        q.len() > 0,
    ensures
        views(q.drop_last()) == views(q).drop_last(),
        views(q).last() == q.last()@,
{
    assert(views(q.drop_last()) =~= views(q).drop_last());
}

proof fn lemma_views_drop_first(q: Seq<Bytes>)
    requires
        q.len() > 0,
    ensures
        views(q.drop_first()) == views(q).drop_first(),
        views(q)[0] == q[0]@,
{
    assert(views(q.drop_first()) =~= views(q).drop_first());
}

proof fn lemma_views_push_front(q: Seq<Bytes>, b: Bytes)
    ensures
        views(seq![b] + q) == seq![b@] + views(q),
{
    assert(views(seq![b] + q) =~= seq![b@] + views(q));
}

/// A new chunk holding the bytes of `a` followed by those of `b`.
fn joined(a: &Bytes, b: &[u8]) -> (r: Bytes)
    ensures
        r@ == a@ + b@,
{
    let mut v: Vec<u8> = Vec::new();
    let n = a.len();
    let mut i: usize = 0;
    while i < n
        invariant
            i <= n,
            n == a@.len(),
            v@ == a@.subrange(0, i as int),
        decreases n - i,
    {
        v.push(a.at(i));
        i = i + 1;
        assert(v@ =~= a@.subrange(0, i as int));
    }
    let m = b.len();
    let mut j: usize = 0;
    while j < m
        invariant
            j <= m,
            m == b@.len(),
            v@ == a@ + b@.subrange(0, j as int),
        decreases m - j,
    {
        v.push(b[j]);
        j = j + 1;
        assert(v@ =~= a@ + b@.subrange(0, j as int));
    }
    assert(b@.subrange(0, m as int) =~= b@);
    Bytes::from_vec(v)
}

impl Buffer {
    /// The views of the chunks, front to back.
    pub closed spec fn chunks(&self) -> Seq<Seq<u8>> {
        views(self.chunks@)
    }

    #[verifier::type_invariant]
    spec fn length_fits(self) -> bool {
        self.chunks().flatten().len() <= usize::MAX
    }

    /// An empty buffer, with no chunk.
    pub fn new() -> (r: Buffer)
        ensures
            r.chunks() == Seq::<Seq<u8>>::empty(),
            r@ == Seq::<u8>::empty(),
    {
        let r = Buffer { chunks: VecDeque::new() };
        assert(r.chunks() =~= Seq::<Seq<u8>>::empty());
        r
    }

    /// A buffer whose one chunk is `b`.
    pub fn from(b: Bytes) -> (r: Buffer)
        ensures
            r.chunks() == seq![b@],
            r@ == b@,
    {
        let n = b.len();
        let mut q: VecDeque<Bytes> = VecDeque::new();
        q.push_back(b);
        proof {
            assert(n == b@.len());
            lemma_views_push(Seq::empty(), b);
            assert(Seq::<Bytes>::empty().push(b) == q@);
            assert(views(Seq::empty()) =~= Seq::<Seq<u8>>::empty());
            assert(views(q@) == seq![b@]);
            seq![b@].lemma_flatten_singleton();
            assert(views(q@).len() == 1);
        }
        Buffer { chunks: q }
    }

    /// The number of chunks.
    pub fn chunk_count(&self) -> (r: usize)
        ensures
            r == self.chunks().len(),
    {
        self.chunks.len()
    }

    /// The length of chunk `k`.
    pub fn chunk_len(&self, k: usize) -> (r: usize)
        requires
            k < self.chunks().len(),
        ensures
            r == self.chunks()[k as int].len(),
    {
        self.chunks[k].len()
    }

    /// The number of bytes, summed over the chunks.
    pub fn len(&self) -> (r: usize)
        ensures
            r == self@.len(),
            r == sum_lens(self.chunks()),
    {
        proof {
            use_type_invariant(self);
            lemma_flatten_len(self.chunks());
        }
        let n = self.chunks.len();
        let mut total: usize = 0;
        let mut k: usize = 0;
        while k < n
            invariant
                k <= n,
                n == self.chunks().len(),
                total == prefix_len(self.chunks(), k as int),
                self.chunks().flatten().len() <= usize::MAX,
            decreases n - k,
        {
            proof {
                lemma_chunk_in_flatten(self.chunks(), k as int);
            }
            total = total + self.chunks[k].len();
            k = k + 1;
        }
        assert(self.chunks().take(n as int) =~= self.chunks());
        total
    }

    pub fn is_empty(&self) -> (r: bool)
        ensures
            r == (self@.len() == 0),
    {
        self.len() == 0
    }

    /// Drops every chunk.
    pub fn clear(&mut self)
        ensures
            final(self).chunks() == Seq::<Seq<u8>>::empty(),
            final(self)@ == Seq::<u8>::empty(),
    {
        self.chunks = VecDeque::new();
        assert(self.chunks() =~= Seq::<Seq<u8>>::empty());
    }

    /// Appends `b` under the coalescing policy with the default threshold
    /// `MIN_UNIT_SIZE`.
    pub fn push(&mut self, b: Bytes)
        requires
            old(self)@.len() + b@.len() <= usize::MAX,
        ensures
            final(self).chunks() == coalesced(old(self).chunks(), b@, MIN_UNIT_SIZE as nat),
            final(self)@ == old(self)@ + b@,
    {
        self.push_with_min_unit(b, MIN_UNIT_SIZE);
    }

    /// Appends `b`: an empty `b` is dropped, one shorter than `min_unit` is
    /// copied onto the end of the last chunk when there is one, and any other
    /// becomes a chunk of its own.
    pub fn push_with_min_unit(&mut self, b: Bytes, min_unit: usize)
        requires
            old(self)@.len() + b@.len() <= usize::MAX,
        ensures
            final(self).chunks() == coalesced(old(self).chunks(), b@, min_unit as nat),
            final(self)@ == old(self)@ + b@,
    {
        let n = b.len();
        if n == 0 {
            assert(old(self)@ + b@ =~= old(self)@);
            return;
        }
        if n < min_unit && self.chunks.len() > 0 {
            let data = b.slice_at(0);
            assert(data@ =~= b@);
            self.append_to_last(data);
        } else {
            self.push_chunk(b);
        }
    }

    /// Appends `b` as a chunk of its own.
    fn push_chunk(&mut self, b: Bytes)
        requires
            old(self)@.len() + b@.len() <= usize::MAX,
        ensures
            final(self).chunks() == old(self).chunks().push(b@),
            final(self)@ == old(self)@ + b@,
    {
        let mut q: VecDeque<Bytes> = VecDeque::new();
        std::mem::swap(&mut q, &mut self.chunks);
        proof {
            lemma_views_push(q@, b);
            views(q@).lemma_flatten_push(b@);
        }
        q.push_back(b);
        self.chunks = q;
    }

    /// Replaces the last chunk by a copy of it followed by `data`.
    fn append_to_last(&mut self, data: &[u8])
        requires
            old(self).chunks().len() > 0,
            old(self)@.len() + data@.len() <= usize::MAX,
        ensures
            final(self).chunks() == old(self).chunks().drop_last().push(
                old(self).chunks().last() + data@,
            ),
            final(self)@ == old(self)@ + data@,
    {
        let mut q: VecDeque<Bytes> = VecDeque::new();
        std::mem::swap(&mut q, &mut self.chunks);
        let ghost cs = views(q@);
        match q.pop_back() {
            Some(last) => {
                let merged = joined(&last, data);
                proof {
                    lemma_views_drop_last(old(self).chunks@);
                    lemma_views_push(q@, merged);
                    lemma_flatten_drop_last(cs);
                    views(q@).lemma_flatten_push(merged@);
                    assert(cs.drop_last().flatten() + (cs.last() + data@) =~= cs.flatten()
                        + data@);
                }
                q.push_back(merged);
            },
            None => {},
        }
        self.chunks = q;
    }

    /// Appends a copy of `data` under the coalescing policy with the default
    /// threshold, and returns how many bytes were taken: all of them.
    pub fn write(&mut self, data: &[u8]) -> (r: usize)
        requires
            old(self)@.len() + data@.len() <= usize::MAX,
        ensures
            r == data@.len(),
            final(self).chunks() == coalesced(old(self).chunks(), data@, MIN_UNIT_SIZE as nat),
            final(self)@ == old(self)@ + data@,
    {
        let n = data.len();
        if n == 0 {
            assert(old(self)@ + data@ =~= old(self)@);
        } else if n < MIN_UNIT_SIZE && self.chunks.len() > 0 {
            self.append_to_last(data);
        } else {
            self.push_chunk(Bytes::from_vec(vstd::slice::slice_to_vec(data)));
        }
        n
    }

    /// Moves every chunk of `other` onto the end of this buffer; no byte is
    /// copied.
    pub fn pipe(&mut self, other: Buffer)
        requires
            old(self)@.len() + other@.len() <= usize::MAX,
        ensures
            final(self).chunks() == old(self).chunks() + other.chunks(),
            final(self)@ == old(self)@ + other@,
    {
        let Buffer { chunks: mut o } = other;
        let mut q: VecDeque<Bytes> = VecDeque::new();
        std::mem::swap(&mut q, &mut self.chunks);
        proof {
            assert(views(q@ + o@) =~= views(q@) + views(o@));
            lemma_flatten_concat(views(q@), views(o@));
        }
        q.append(&mut o);
        self.chunks = q;
    }

    /// Borrows the bytes from absolute position `i` to the end of the chunk
    /// that holds it; never past that chunk.
    pub fn slice_at(&self, i: usize) -> (r: &[u8])
        requires
            i < self@.len(),
        ensures
            r@.len() > 0,
            i + r@.len() <= self@.len(),
            r@ == self@.subrange(i as int, i + r@.len()),
            exists|k: int|
                0 <= k < self.chunks().len() && #[trigger] prefix_len(self.chunks(), k) <= i < prefix_len(
                    self.chunks(),
                    k + 1,
                ) && r@ == self@.subrange(i as int, prefix_len(self.chunks(), k + 1) as int),
    {
        proof {
            use_type_invariant(self);
        }
        let ghost cs = self.chunks();
        let n = self.chunks.len();
        let mut k: usize = 0;
        let mut offset: usize = 0;
        loop
            invariant
                k <= n,
                n == cs.len(),
                cs == self.chunks(),
                offset == prefix_len(cs, k as int),
                offset <= i,
                i < cs.flatten().len(),
                cs.flatten().len() <= usize::MAX,
            decreases n - k,
        {
            proof {
                if k == n {
                    assert(cs.take(n as int) =~= cs);
                }
                lemma_chunk_in_flatten(cs, k as int);
            }
            let c = &self.chunks[k];
            let l = c.len();
            if i - offset < l {
                let r = c.slice_at(i - offset);
                proof {
                    let end = prefix_len(cs, k + 1) as int;
                    assert(r@ =~= self@.subrange(i as int, end));
                }
                return r;
            }
            offset = offset + l;
            k = k + 1;
        }
    }

    /// Copies `target.len()` bytes, starting at absolute position `from`,
    /// into `target`, across as many chunks as it takes.
    pub fn copy_to_slice(&self, from: usize, target: &mut [u8])
        requires
            from + old(target)@.len() <= self@.len(),
        ensures
            final(target)@ == self@.subrange(from as int, from + old(target)@.len()),
    {
        proof {
            use_type_invariant(self);
        }
        let ghost cs = self.chunks();
        let n = target.len();
        let cn = self.chunks.len();
        let mut copied: usize = 0;
        let mut offset: usize = 0;
        let mut k: usize = 0;
        while copied < n
            invariant
                k <= cn,
                cn == cs.len(),
                cs == self.chunks(),
                offset == prefix_len(cs, k as int),
                copied <= n,
                n == target@.len(),
                from + n <= cs.flatten().len(),
                cs.flatten().len() <= usize::MAX,
                copied < n ==> from + copied >= offset,
                forall|j: int| 0 <= j < copied ==> #[trigger] target@[j] == self@[from + j],
            decreases cn - k,
        {
            proof {
                if k == cn {
                    assert(cs.take(cn as int) =~= cs);
                }
                lemma_chunk_in_flatten(cs, k as int);
            }
            let c = &self.chunks[k];
            let l = c.len();
            if from + copied < offset + l {
                let start = from + copied - offset;
                let avail = if l - start < n - copied {
                    l - start
                } else {
                    n - copied
                };
                let ghost before = target@;
                c.copy_range_into(start, target, copied, avail);
                proof {
                    assert forall|j: int| 0 <= j < copied + avail implies #[trigger] target@[j]
                        == self@[from + j] by {
                        if j >= copied {
                            assert(target@[j] == c@[start + j - copied]);
                            assert(self@.subrange(offset as int, offset + l) == c@);
                        } else {
                            assert(target@[j] == before[j]);
                        }
                    }
                }
                copied = copied + avail;
            }
            offset = offset + l;
            k = k + 1;
        }
        assert(target@ =~= self@.subrange(from as int, from + n));
    }

    /// A new buffer holding `[from, to)` of this one: each chunk it touches
    /// is sliced, over the same storage, and no byte is copied.
    pub fn slice(&self, from: usize, to: usize) -> (r: Buffer)
        requires
            from <= to <= self@.len(),
        ensures
            r@ == self@.subrange(from as int, to as int),
            forall|j: int| 0 <= j < to - from ==> #[trigger] r@[j] == self@[from + j],
            r.chunks().len() <= self.chunks().len(),
    {
        proof {
            use_type_invariant(self);
        }
        let ghost cs = self.chunks();
        let cn = self.chunks.len();
        let mut q: VecDeque<Bytes> = VecDeque::new();
        let mut offset: usize = 0;
        let mut k: usize = 0;
        proof {
            assert(views(q@).flatten() =~= self@.subrange(0, 0));
        }
        while k < cn && offset < to
            invariant
                k <= cn,
                cn == cs.len(),
                cs == self.chunks(),
                offset == prefix_len(cs, k as int),
                from <= to <= cs.flatten().len(),
                cs.flatten().len() <= usize::MAX,
                q@.len() <= k,
                views(q@).flatten() == self@.subrange(min(from as int, offset as int), min(
                    to as int,
                    offset as int,
                )),
            decreases cn - k,
        {
            proof {
                lemma_chunk_in_flatten(cs, k as int);
            }
            let c = &self.chunks[k];
            let l = c.len();
            if offset + l > from {
                let b = if offset > from {
                    0
                } else {
                    from - offset
                };
                let e = if to - offset < l {
                    to - offset
                } else {
                    l
                };
                if b < e {
                    let piece = c.slice(b, e);
                    proof {
                        lemma_views_push(q@, piece);
                        views(q@).lemma_flatten_push(piece@);
                        assert(self@.subrange(offset as int, offset + l) == c@);
                        assert(views(q@).flatten() + piece@ =~= self@.subrange(
                            min(from as int, offset + l),
                            min(to as int, offset + l),
                        ));
                    }
                    q.push_back(piece);
                } else {
                    assert(self@.subrange(min(from as int, offset as int), min(to as int, offset as int))
                        =~= self@.subrange(min(from as int, offset + l), min(to as int, offset + l)));
                }
            } else {
                assert(self@.subrange(min(from as int, offset as int), min(to as int, offset as int))
                    =~= self@.subrange(min(from as int, offset + l), min(to as int, offset + l)));
            }
            offset = offset + l;
            k = k + 1;
        }
        proof {
            if k == cn {
                assert(cs.take(cn as int) =~= cs);
            }
        }
        Buffer { chunks: q }
    }

    pub fn slice_from(&self, from: usize) -> (r: Buffer)
        requires
            from <= self@.len(),
        ensures
            r@ == self@.subrange(from as int, self@.len() as int),
    {
        let len = self.len();
        self.slice(from, len)
    }

    pub fn slice_to(&self, to: usize) -> (r: Buffer)
        requires
            to <= self@.len(),
        ensures
            r@ == self@.subrange(0, to as int),
    {
        self.slice(0, to)
    }

    /// Drops the first `n` bytes, removing the chunks they used up and
    /// narrowing the chunk they end in. Past the end it stops: the buffer is
    /// then empty, which is no error.
    pub fn advance(&mut self, n: usize)
        ensures
            final(self)@ == advanced(old(self)@, n as nat),
            final(self).chunks().len() <= old(self).chunks().len(),
    {
        proof {
            use_type_invariant(&*self);
        }
        let mut q: VecDeque<Bytes> = VecDeque::new();
        std::mem::swap(&mut q, &mut self.chunks);
        let ghost s0 = views(q@).flatten();
        let ghost k0 = q@.len();
        let mut rest = n;
        while rest > 0 && q.len() > 0
            invariant
                rest <= n,
                n - rest <= s0.len(),
                views(q@).flatten() == s0.subrange(n - rest, s0.len() as int),
                s0.len() <= usize::MAX,
                q@.len() <= k0,
            decreases q@.len() + rest,
        {
            let ghost before = q@;
            match q.pop_front() {
                Some(mut c) => {
                    proof {
                        lemma_views_drop_first(before);
                        assert(q@ == before.drop_first());
                        crate::flat::lemma_flatten_drop_first(views(before));
                    }
                    let l = c.len();
                    proof {
                        let tail = s0.subrange(n - rest, s0.len() as int);
                        assert(tail == c@ + views(q@).flatten());
                        assert(tail.len() == l + views(q@).flatten().len());
                    }
                    if rest >= l {
                        let ghost old_rest = rest;
                        rest = rest - l;
                        assert(views(q@).flatten() =~= s0.subrange(n - rest, s0.len() as int)) by {
                            let tail = s0.subrange(n - old_rest, s0.len() as int);
                            assert(views(q@).flatten() =~= tail.subrange(l as int, tail.len() as int));
                        }
                    } else {
                        let ghost tail = s0.subrange(n - rest, s0.len() as int);
                        let ghost old_rest = rest;
                        c.truncate_from(rest);
                        proof {
                            assert(c@ + views(q@).flatten() =~= tail.subrange(
                                old_rest as int,
                                tail.len() as int,
                            ));
                            lemma_views_push_front(q@, c);
                            assert(views(seq![c] + q@).flatten() == c@ + views(q@).flatten()) by {
                                crate::flat::lemma_flatten_drop_first(views(seq![c] + q@));
                                assert(views(seq![c] + q@).drop_first() =~= views(q@));
                            }
                        }
                        q.push_front(c);
                        rest = 0;
                        assert(views(q@).flatten() =~= s0.subrange(n - rest, s0.len() as int));
                    }
                },
                None => {},
            }
        }
        proof {
            if rest > 0 {
                assert(views(q@) =~= Seq::<Seq<u8>>::empty());
            }
            assert(views(q@).flatten() =~= advanced(s0, n as nat));
        }
        self.chunks = q;
    }

    /// Keeps the first `to` bytes: drops the chunks wholly past `to` and
    /// narrows the one that straddles it.
    pub fn truncate(&mut self, to: usize)
        requires
            to <= old(self)@.len(),
        ensures
            final(self)@ == old(self)@.subrange(0, to as int),
            final(self).chunks().len() <= old(self).chunks().len(),
    {
        let len = self.len();
        let mut dropped = len - to;
        let mut q: VecDeque<Bytes> = VecDeque::new();
        std::mem::swap(&mut q, &mut self.chunks);
        let ghost s0 = views(q@).flatten();
        let ghost k0 = q@.len();
        assert(s0.subrange(0, to + dropped) =~= s0);
        while dropped > 0
            invariant
                to + dropped <= s0.len(),
                views(q@).flatten() == s0.subrange(0, to + dropped),
                s0.len() <= usize::MAX,
                q@.len() <= k0,
            decreases q@.len() + dropped,
        {
            let ghost before = q@;
            proof {
                if before.len() == 0 {
                    assert(views(before) =~= Seq::<Seq<u8>>::empty());
                    assert(views(before).flatten().len() == 0);
                }
            }
            match q.pop_back() {
                Some(mut c) => {
                    proof {
                        lemma_views_drop_last(before);
                        assert(q@ == before.drop_last());
                        lemma_flatten_drop_last(views(before));
                    }
                    let l = c.len();
                    proof {
                        let head = s0.subrange(0, to + dropped);
                        assert(head == views(q@).flatten() + c@);
                        assert(head.len() == views(q@).flatten().len() + l);
                    }
                    if dropped >= l {
                        let ghost old_dropped = dropped;
                        dropped = dropped - l;
                        assert(views(q@).flatten() =~= s0.subrange(0, to + dropped)) by {
                            let head = s0.subrange(0, to + old_dropped);
                            assert(views(q@).flatten() =~= head.subrange(0, to + dropped));
                        }
                    } else {
                        c.truncate_to(l - dropped);
                        proof {
                            lemma_views_push(q@, c);
                            views(q@).lemma_flatten_push(c@);
                        }
                        q.push_back(c);
                        dropped = 0;
                        assert(views(q@).flatten() =~= s0.subrange(0, to as int));
                    }
                },
                None => {},
            }
        }
        self.chunks = q;
    }

    /// Splits at `from`: returns the bytes from `from` on, as slices of the
    /// chunks, and keeps the bytes before it.
    pub fn take_from(&mut self, from: usize) -> (r: Buffer)
        requires
            from <= old(self)@.len(),
        ensures
            r@ == old(self)@.subrange(from as int, old(self)@.len() as int),
            final(self)@ == old(self)@.subrange(0, from as int),
            final(self)@ + r@ == old(self)@,
    {
        let r = self.slice_from(from);
        self.truncate(from);
        assert(self@ + r@ =~= old(self)@);
        r
    }

    /// Splits at `to`: returns the bytes before `to`, as slices of the
    /// chunks, and keeps the bytes from `to` on.
    pub fn take_to(&mut self, to: usize) -> (r: Buffer)
        requires
            to <= old(self)@.len(),
        ensures
            r@ == old(self)@.subrange(0, to as int),
            final(self)@ == old(self)@.subrange(to as int, old(self)@.len() as int),
            r@ + final(self)@ == old(self)@,
    {
        let r = self.slice_to(to);
        self.advance(to);
        assert(r@ + self@ =~= old(self)@);
        r
    }

    /// Drains bytes from the front into `target`: as many as fit, or as many
    /// as there are. Used-up chunks are removed and a chunk read in part is
    /// narrowed and kept. Returns the count copied, which is 0 only when the
    /// buffer is empty or `target` is.
    pub fn read(&mut self, target: &mut [u8]) -> (r: usize)
        ensures
            r == min(old(target)@.len() as int, old(self)@.len() as int),
            final(target)@ == old(self)@.subrange(0, r as int) + old(target)@.subrange(
                r as int,
                old(target)@.len() as int,
            ),
            final(self)@ == old(self)@.subrange(r as int, old(self)@.len() as int),
    {
        proof {
            use_type_invariant(&*self);
        }
        let n = target.len();
        let mut q: VecDeque<Bytes> = VecDeque::new();
        std::mem::swap(&mut q, &mut self.chunks);
        let ghost s0 = views(q@).flatten();
        let ghost t0 = target@;
        let mut copied: usize = 0;
        assert(target@ =~= s0.subrange(0, 0) + t0.subrange(0, n as int));
        assert(views(q@).flatten() =~= s0.subrange(0, s0.len() as int));
        while copied < n && q.len() > 0
            invariant
                copied <= n,
                copied <= s0.len(),
                n == t0.len(),
                s0.len() <= usize::MAX,
                views(q@).flatten() == s0.subrange(copied as int, s0.len() as int),
                target@ == s0.subrange(0, copied as int) + t0.subrange(copied as int, n as int),
            decreases q@.len() + (n - copied),
        {
            let ghost before = q@;
            match q.pop_front() {
                Some(mut c) => {
                    proof {
                        lemma_views_drop_first(before);
                        assert(q@ == before.drop_first());
                        crate::flat::lemma_flatten_drop_first(views(before));
                    }
                    let ghost tail = s0.subrange(copied as int, s0.len() as int);
                    let l = c.len();
                    proof {
                        assert(tail == c@ + views(q@).flatten());
                        assert(tail.len() == l + views(q@).flatten().len());
                    }
                    let cpl = if n - copied < l {
                        n - copied
                    } else {
                        l
                    };
                    c.copy_range_into(0, target, copied, cpl);
                    let ghost old_copied = copied;
                    copied = copied + cpl;
                    proof {
                        assert(c@.subrange(0, cpl as int) =~= s0.subrange(
                            old_copied as int,
                            copied as int,
                        ));
                        assert(target@ =~= s0.subrange(0, copied as int) + t0.subrange(
                            copied as int,
                            n as int,
                        ));
                    }
                    if cpl < l {
                        c.truncate_from(cpl);
                        proof {
                            assert(c@ + views(q@).flatten() =~= tail.subrange(
                                cpl as int,
                                tail.len() as int,
                            ));
                            assert(tail.subrange(cpl as int, tail.len() as int) =~= s0.subrange(
                                copied as int,
                                s0.len() as int,
                            ));
                            lemma_views_push_front(q@, c);
                            assert(views(seq![c] + q@).flatten() == c@ + views(q@).flatten()) by {
                                crate::flat::lemma_flatten_drop_first(views(seq![c] + q@));
                                assert(views(seq![c] + q@).drop_first() =~= views(q@));
                            }
                        }
                        q.push_front(c);
                    } else {
                        assert(views(q@).flatten() =~= tail.subrange(l as int, tail.len() as int));
                        assert(views(q@).flatten() =~= s0.subrange(copied as int, s0.len() as int));
                    }
                },
                None => {},
            }
        }
        proof {
            if copied < n {
                assert(views(q@) =~= Seq::<Seq<u8>>::empty());
                assert(views(q@).flatten().len() == 0);
            }
        }
        self.chunks = q;
        copied
    }

    /// Merges, in one pass front to back, each chunk into the one before it
    /// while that one is shorter than `min_unit_size`. The bytes stay as they
    /// were; afterwards every chunk but the last holds at least
    /// `min_unit_size` bytes.
    pub fn defragmentation(&mut self, min_unit_size: usize)
        ensures
            final(self).chunks() == defragmented(old(self).chunks(), min_unit_size as nat),
            final(self)@ == old(self)@,
            final(self).chunks().len() <= old(self).chunks().len(),
            forall|i: int|
                0 <= i < final(self).chunks().len() - 1 ==> #[trigger] final(self).chunks()[i].len()
                    >= min_unit_size,
    {
        proof {
            use_type_invariant(&*self);
            lemma_defragmented(self.chunks(), min_unit_size as nat);
        }
        let mut q: VecDeque<Bytes> = VecDeque::new();
        std::mem::swap(&mut q, &mut self.chunks);
        let ghost cs = views(q@);
        let ghost total = q@.len();
        let mut out: VecDeque<Bytes> = VecDeque::new();
        proof {
            assert(views(out@) =~= defragmented(cs.take(0), min_unit_size as nat));
            assert(views(q@) =~= cs.skip(0));
        }
        while q.len() > 0
            invariant
                q@.len() <= total,
                total == cs.len(),
                views(out@) == defragmented(cs.take(total - q@.len()), min_unit_size as nat),
                views(q@) == cs.skip(total - q@.len()),
                cs.flatten().len() <= usize::MAX,
            decreases q@.len(),
        {
            let ghost i = total - q@.len();
            let ghost before = q@;
            proof {
                lemma_defragmented(cs.take(i + 1), min_unit_size as nat);
                lemma_views_drop_first(before);
                crate::flat::lemma_flatten_split(cs, i + 1);
                assert(cs.take(i + 1).drop_last() =~= cs.take(i));
                assert(cs.take(i + 1).last() == cs[i]);
                assert(views(before)[0] == cs[i]);
            }
            match q.pop_front() {
                Some(b) => {
                    assert(views(q@) =~= cs.skip(i + 1));
                    let ghost acc = views(out@);
                    let k = out.len();
                    if k > 0 && out[k - 1].len() < min_unit_size {
                        let ghost before_out = out@;
                        match out.pop_back() {
                            Some(last) => {
                                proof {
                                    lemma_views_drop_last(before_out);
                                }
                                let data = b.slice_at(0);
                                proof {
                                    assert(data@ =~= b@);
                                    let f = defragmented(cs.take(i + 1), min_unit_size as nat);
                                    assert(f == merge_step(acc, cs[i], min_unit_size as nat));
                                    assert(f.flatten().len() <= cs.flatten().len());
                                    crate::flat::lemma_flatten_drop_last(acc);
                                    crate::flat::lemma_flatten_drop_last(f);
                                }
                                let merged = joined(&last, data);
                                proof {
                                    lemma_views_push(out@, merged);
                                }
                                out.push_back(merged);
                            },
                            None => {},
                        }
                    } else {
                        proof {
                            lemma_views_push(out@, b);
                        }
                        out.push_back(b);
                    }
                },
                None => {},
            }
        }
        proof {
            assert(cs.take(total as int) =~= cs);
        }
        self.chunks = out;
    }

    /// A fresh vector holding every byte, front to back.
    pub fn to_vec(&self) -> (r: Vec<u8>)
        ensures
            r@ == self@,
    {
        let n = self.len();
        let mut v: Vec<u8> = vec![0u8; n];
        self.copy_to_slice(0, v.as_mut_slice());
        assert(v@ =~= self@);
        v
    }

    /// The bytes of every chunk, front to back, in one flat vector.
    pub fn iter(&self) -> (r: Vec<u8>)
        ensures
            r@ == self@,
    {
        self.to_vec()
    }
}

impl Clone for Buffer {
    /// A second list of the same chunks, each sharing its storage.
    fn clone(&self) -> (r: Buffer)
        ensures
            r.chunks() == self.chunks(),
            r@ == self@,
    {
        proof {
            use_type_invariant(self);
        }
        let n = self.chunks.len();
        let mut q: VecDeque<Bytes> = VecDeque::new();
        let mut k: usize = 0;
        while k < n
            invariant
                k <= n,
                n == self.chunks@.len(),
                views(q@) == self.chunks().take(k as int),
                self.chunks().flatten().len() <= usize::MAX,
            decreases n - k,
        {
            let c = self.chunks[k].clone();
            proof {
                lemma_views_push(q@, c);
                assert(self.chunks().take(k + 1) =~= self.chunks().take(k as int).push(c@));
            }
            q.push_back(c);
            k = k + 1;
        }
        assert(self.chunks().take(n as int) =~= self.chunks());
        Buffer { chunks: q }
    }
}

impl IntoBytes for Buffer {
    open spec fn source_bytes(&self) -> Seq<u8> {
        self@
    }

    /// A single chunk is handed over as it is; several are copied into one
    /// new vector; none give an empty view.
    fn into_bytes(self) -> (r: Bytes) {
        if self.chunks.len() == 1 {
            proof {
                use_type_invariant(&self);
            }
            let ghost cs = self.chunks();
            let Buffer { chunks: mut q } = self;
            match q.pop_front() {
                Some(b) => {
                    proof {
                        assert(cs == seq![b@]);
                        cs.lemma_flatten_singleton();
                    }
                    b
                },
                None => Bytes::from_vec(Vec::new()),
            }
        } else {
            Bytes::from_vec(self.to_vec())
        }
    }
}

impl std::ops::Index<usize> for Buffer {
    type Output = u8;

    fn index(&self, i: usize) -> (r: &u8)
        ensures
            *r == self@[i as int],
    {
        let s = self.slice_at(i);
        &s[0]
    }
}

impl vstd::std_specs::core::IndexSpecImpl<usize> for Buffer {
    open spec fn index_req(&self, i: &usize) -> bool {
        *i < self@.len()
    }
}

} // verus!
