use vstd::prelude::*;

use crate::buffer::Buffer;
use crate::bytes::Bytes;

verus! {

/// `256` to the power `n`: one more than the largest value `n` bytes hold.
pub open spec fn radix(n: nat) -> nat
    decreases n,
{
    if n == 0 {
        1
    } else {
        256 * radix((n - 1) as nat)
    }
}

/// The unsigned value of `s` read with its first byte most significant.
pub open spec fn be_value(s: Seq<u8>) -> nat
    decreases s.len(),
{
    if s.len() == 0 {
        0
    } else {
        be_value(s.drop_last()) * 256 + s.last() as nat
    }
}

/// The unsigned value of `s` read with its first byte least significant.
pub open spec fn le_value(s: Seq<u8>) -> nat
    decreases s.len(),
{
    if s.len() == 0 {
        0
    } else {
        le_value(s.drop_first()) * 256 + s[0] as nat
    }
}

proof fn lemma_radix_grows(m: nat, n: nat)
    requires
        m <= n,
    ensures
        radix(m) <= radix(n),
        radix(n) > 0,
    decreases n,
{
    if n > 0 {
        if m < n {
            lemma_radix_grows(m, (n - 1) as nat);
        } else {
            lemma_radix_grows((n - 1) as nat, (n - 1) as nat);
        }
    }
}

proof fn lemma_radix_of_width(k: nat)
    requires
        k <= 16,
    ensures
        radix(k) <= radix(16),
        radix(16) == 0x1_0000_0000_0000_0000_0000_0000_0000_0000,
        radix(1) == 0x100,
        radix(2) == 0x1_0000,
        radix(3) == 0x100_0000,
        radix(4) == 0x1_0000_0000,
        radix(8) == 0x1_0000_0000_0000_0000,
{
    lemma_radix_grows(k, 16);
    reveal_with_fuel(radix, 17);
}

/// A value read from `k` bytes is below `radix(k)`, whichever the order.
pub proof fn lemma_value_bound(s: Seq<u8>)
    ensures
        be_value(s) < radix(s.len()),
        le_value(s) < radix(s.len()),
    decreases s.len(),
{
    if s.len() > 0 {
        lemma_value_bound(s.drop_last());
        lemma_value_bound(s.drop_first());
        assert(be_value(s.drop_last()) * 256 + 256 <= radix((s.len() - 1) as nat) * 256)
            by (nonlinear_arith)
            requires
                be_value(s.drop_last()) < radix((s.len() - 1) as nat),
        ;
        assert(le_value(s.drop_first()) * 256 + 256 <= radix((s.len() - 1) as nat) * 256)
            by (nonlinear_arith)
            requires
                le_value(s.drop_first()) < radix((s.len() - 1) as nat),
        ;
    }
}

/// The first `k` bytes of `s`, most significant first.
fn decode_be(s: &[u8], k: usize) -> (r: u128)
    requires
        k <= 16,
        k <= s@.len(),
    ensures
        r == be_value(s@.subrange(0, k as int)),
{
    let mut acc: u128 = 0;
    let mut j: usize = 0;
    assert(s@.subrange(0, 0) =~= Seq::<u8>::empty());
    while j < k
        invariant
            j <= k,
            k <= 16,
            k <= s@.len(),
            acc == be_value(s@.subrange(0, j as int)),
        decreases k - j,
    {
        proof {
            let next = s@.subrange(0, j + 1);
            assert(next.drop_last() =~= s@.subrange(0, j as int));
            lemma_value_bound(next);
            lemma_radix_of_width((j + 1) as nat);
        }
        acc = acc * 256 + s[j] as u128;
        j = j + 1;
    }
    acc
}

/// The first `k` bytes of `s`, least significant first.
fn decode_le(s: &[u8], k: usize) -> (r: u128)
    requires
        k <= 16,
        k <= s@.len(),
    ensures
        r == le_value(s@.subrange(0, k as int)),
{
    let mut acc: u128 = 0;
    let mut j: usize = k;
    assert(s@.subrange(k as int, k as int) =~= Seq::<u8>::empty());
    while j > 0
        invariant
            j <= k,
            k <= 16,
            k <= s@.len(),
            acc == le_value(s@.subrange(j as int, k as int)),
        decreases j,
    {
        proof {
            let next = s@.subrange(j - 1, k as int);
            assert(next.drop_first() =~= s@.subrange(j as int, k as int));
            lemma_value_bound(next);
            lemma_radix_of_width((k - j + 1) as nat);
        }
        acc = acc * 256 + s[j - 1] as u128;
        j = j - 1;
    }
    acc
}

/// A run of bytes that can hand out a contiguous piece at any position and
/// copy out any range: what reading a number needs.
pub trait NumberAble {
    /// The bytes, in order.
    spec fn content(&self) -> Seq<u8>;

    /// Borrows a non-empty contiguous run of the bytes from position `i` on.
    fn slice_at(&self, i: usize) -> (r: &[u8])
        requires
            i < self.content().len(),
        ensures
            r@.len() > 0,
            i + r@.len() <= self.content().len(),
            r@ == self.content().subrange(i as int, i + r@.len()),
    ;

    /// Copies `target.len()` bytes, starting at `from`, into `target`.
    fn copy_to_slice(&self, from: usize, target: &mut [u8])
        requires
            from + old(target)@.len() <= self.content().len(),
        ensures
            final(target)@ == self.content().subrange(from as int, from + old(target)@.len()),
    ;

    fn len(&self) -> (r: usize)
        ensures
            r == self.content().len(),
    ;
}

/// The `k` bytes at position `i` of `src`, read as one unsigned value. When
/// the piece that `src` lends at `i` holds them all they are read in place;
/// when they straddle a chunk boundary they are first copied out.
fn read_uint<S: NumberAble + ?Sized>(src: &S, i: usize, k: usize, big_endian: bool) -> (r: u128)
    requires
        1 <= k <= 16,
        i + k <= src.content().len(),
    ensures
        big_endian ==> r == be_value(src.content().subrange(i as int, i + k)),
        !big_endian ==> r == le_value(src.content().subrange(i as int, i + k)),
{
    let s = src.slice_at(i);
    if s.len() >= k {
        assert(s@.subrange(0, k as int) =~= src.content().subrange(i as int, i + k));
        if big_endian {
            decode_be(s, k)
        } else {
            decode_le(s, k)
        }
    } else {
        let mut buf: Vec<u8> = vec![0u8; k];
        src.copy_to_slice(i, buf.as_mut_slice());
        let b = buf.as_slice();
        assert(b@.subrange(0, k as int) =~= src.content().subrange(i as int, i + k));
        if big_endian {
            decode_be(b, k)
        } else {
            decode_le(b, k)
        }
    }
}

impl NumberAble for [u8] {
    open spec fn content(&self) -> Seq<u8> {
        self@
    }

    fn slice_at(&self, i: usize) -> (r: &[u8]) {
        vstd::slice::slice_subrange(self, i, self.len())
    }

    fn copy_to_slice(&self, from: usize, target: &mut [u8]) {
        let n = target.len();
        let total = <[u8]>::len(self);
        let mut j: usize = 0;
        while j < n
            invariant
                j <= n,
                total == self@.len(),
                n == target@.len(),
                n == old(target)@.len(),
                from + n <= self@.len(),
                forall|t: int| 0 <= t < j ==> #[trigger] target@[t] == self@[from + t],
            decreases n - j,
        {
            target[j] = self[from + j];
            j = j + 1;
        }
        assert(target@ =~= self@.subrange(from as int, from + n));
    }

    fn len(&self) -> (r: usize) {
        <[u8]>::len(self)
    }
}

impl NumberAble for Bytes {
    open spec fn content(&self) -> Seq<u8> {
        self@
    }

    fn slice_at(&self, i: usize) -> (r: &[u8]) {
        Bytes::slice_at(self, i)
    }

    fn copy_to_slice(&self, from: usize, target: &mut [u8]) {
        Bytes::copy_to_slice(self, from, target)
    }

    fn len(&self) -> (r: usize) {
        Bytes::len(self)
    }
}

impl NumberAble for Buffer {
    open spec fn content(&self) -> Seq<u8> {
        self@
    }

    fn slice_at(&self, i: usize) -> (r: &[u8]) {
        Buffer::slice_at(self, i)
    }

    fn copy_to_slice(&self, from: usize, target: &mut [u8]) {
        Buffer::copy_to_slice(self, from, target)
    }

    fn len(&self) -> (r: usize) {
        Buffer::len(self)
    }
}


/// Fixed-width integers read at any position of a byte source, in either
/// byte order. A value may straddle chunks: the result depends only on the
/// bytes, never on how they are split.
pub trait Number: NumberAble {
    /// The byte at `i`.
    fn u8(&self, i: usize) -> (r: u8)
        requires
            i < self.content().len(),
        ensures
            r == self.content()[i as int],
    {
        proof {
            let s = self.content().subrange(i as int, i + 1);
            assert(s.drop_last() =~= Seq::<u8>::empty());
            assert(be_value(s.drop_last()) == 0);
            assert(be_value(s) == self.content()[i as int]);
        }
        read_uint(self, i, 1, true) as u8
    }

    /// The byte at `i` read as a two's complement value.
    fn i8(&self, i: usize) -> (r: i8)
        requires
            i < self.content().len(),
        ensures
            r == self.content()[i as int] as i8,
    {
        self.u8(i) as i8
    }

    /// The unsigned 16-bit value of the 2 bytes at `i`, first byte most
    /// significant.
    fn u16_be(&self, i: usize) -> (r: u16)
        requires
            i + 2 <= self.content().len(),
        ensures
            r == be_value(self.content().subrange(i as int, i + 2)),
    {
        proof {
            lemma_value_bound(self.content().subrange(i as int, i + 2));
            lemma_radix_of_width(2);
        }
        read_uint(self, i, 2, true) as u16
    }

    /// The unsigned 24-bit value of the 3 bytes at `i`, first byte most
    /// significant.
    fn u24_be(&self, i: usize) -> (r: u32)
        requires
            i + 3 <= self.content().len(),
        ensures
            r == be_value(self.content().subrange(i as int, i + 3)),
    {
        proof {
            lemma_value_bound(self.content().subrange(i as int, i + 3));
            lemma_radix_of_width(3);
        }
        read_uint(self, i, 3, true) as u32
    }

    /// The unsigned 32-bit value of the 4 bytes at `i`, first byte most
    /// significant.
    fn u32_be(&self, i: usize) -> (r: u32)
        requires
            i + 4 <= self.content().len(),
        ensures
            r == be_value(self.content().subrange(i as int, i + 4)),
    {
        proof {
            lemma_value_bound(self.content().subrange(i as int, i + 4));
            lemma_radix_of_width(4);
        }
        read_uint(self, i, 4, true) as u32
    }

    /// The unsigned 64-bit value of the 8 bytes at `i`, first byte most
    /// significant.
    fn u64_be(&self, i: usize) -> (r: u64)
        requires
            i + 8 <= self.content().len(),
        ensures
            r == be_value(self.content().subrange(i as int, i + 8)),
    {
        proof {
            lemma_value_bound(self.content().subrange(i as int, i + 8));
            lemma_radix_of_width(8);
        }
        read_uint(self, i, 8, true) as u64
    }

    /// The unsigned 128-bit value of the 16 bytes at `i`, first byte most
    /// significant.
    fn u128_be(&self, i: usize) -> (r: u128)
        requires
            i + 16 <= self.content().len(),
        ensures
            r == be_value(self.content().subrange(i as int, i + 16)),
    {
        proof {
            lemma_value_bound(self.content().subrange(i as int, i + 16));
            lemma_radix_of_width(16);
        }
        read_uint(self, i, 16, true) as u128
    }

    /// The bits of `u16_be` at `i` read as a two's complement value.
    fn i16_be(&self, i: usize) -> (r: i16)
        requires
            i + 2 <= self.content().len(),
        ensures
            r == be_value(self.content().subrange(i as int, i + 2)) as i16,
    {
        self.u16_be(i) as i16
    }

    /// The bits of `u24_be` at `i` read as a two's complement value.
    fn i24_be(&self, i: usize) -> (r: i32)
        requires
            i + 3 <= self.content().len(),
        ensures
            r == be_value(self.content().subrange(i as int, i + 3)) as i32,
    {
        self.u24_be(i) as i32
    }

    /// The bits of `u32_be` at `i` read as a two's complement value.
    fn i32_be(&self, i: usize) -> (r: i32)
        requires
            i + 4 <= self.content().len(),
        ensures
            r == be_value(self.content().subrange(i as int, i + 4)) as i32,
    {
        self.u32_be(i) as i32
    }

    /// The bits of `u64_be` at `i` read as a two's complement value.
    fn i64_be(&self, i: usize) -> (r: i64)
        requires
            i + 8 <= self.content().len(),
        ensures
            r == be_value(self.content().subrange(i as int, i + 8)) as i64,
    {
        self.u64_be(i) as i64
    }

    /// The bits of `u128_be` at `i` read as a two's complement value.
    fn i128_be(&self, i: usize) -> (r: i128)
        requires
            i + 16 <= self.content().len(),
        ensures
            r == be_value(self.content().subrange(i as int, i + 16)) as i128,
    {
        self.u128_be(i) as i128
    }

    /// The unsigned 16-bit value of the 2 bytes at `i`, first byte least
    /// significant.
    fn u16_le(&self, i: usize) -> (r: u16)
        requires
            i + 2 <= self.content().len(),
        ensures
            r == le_value(self.content().subrange(i as int, i + 2)),
    {
        proof {
            lemma_value_bound(self.content().subrange(i as int, i + 2));
            lemma_radix_of_width(2);
        }
        read_uint(self, i, 2, false) as u16
    }

    /// The unsigned 24-bit value of the 3 bytes at `i`, first byte least
    /// significant.
    fn u24_le(&self, i: usize) -> (r: u32)
        requires
            i + 3 <= self.content().len(),
        ensures
            r == le_value(self.content().subrange(i as int, i + 3)),
    {
        proof {
            lemma_value_bound(self.content().subrange(i as int, i + 3));
            lemma_radix_of_width(3);
        }
        read_uint(self, i, 3, false) as u32
    }

    /// The unsigned 32-bit value of the 4 bytes at `i`, first byte least
    /// significant.
    fn u32_le(&self, i: usize) -> (r: u32)
        requires
            i + 4 <= self.content().len(),
        ensures
            r == le_value(self.content().subrange(i as int, i + 4)),
    {
        proof {
            lemma_value_bound(self.content().subrange(i as int, i + 4));
            lemma_radix_of_width(4);
        }
        read_uint(self, i, 4, false) as u32
    }

    /// The unsigned 64-bit value of the 8 bytes at `i`, first byte least
    /// significant.
    fn u64_le(&self, i: usize) -> (r: u64)
        requires
            i + 8 <= self.content().len(),
        ensures
            r == le_value(self.content().subrange(i as int, i + 8)),
    {
        proof {
            lemma_value_bound(self.content().subrange(i as int, i + 8));
            lemma_radix_of_width(8);
        }
        read_uint(self, i, 8, false) as u64
    }

    /// The unsigned 128-bit value of the 16 bytes at `i`, first byte least
    /// significant.
    fn u128_le(&self, i: usize) -> (r: u128)
        requires
            i + 16 <= self.content().len(),
        ensures
            r == le_value(self.content().subrange(i as int, i + 16)),
    {
        proof {
            lemma_value_bound(self.content().subrange(i as int, i + 16));
            lemma_radix_of_width(16);
        }
        read_uint(self, i, 16, false) as u128
    }

    /// The bits of `u16_le` at `i` read as a two's complement value.
    fn i16_le(&self, i: usize) -> (r: i16)
        requires
            i + 2 <= self.content().len(),
        ensures
            r == le_value(self.content().subrange(i as int, i + 2)) as i16,
    {
        self.u16_le(i) as i16
    }

    /// The bits of `u24_le` at `i` read as a two's complement value.
    fn i24_le(&self, i: usize) -> (r: i32)
        requires
            i + 3 <= self.content().len(),
        ensures
            r == le_value(self.content().subrange(i as int, i + 3)) as i32,
    {
        self.u24_le(i) as i32
    }

    /// The bits of `u32_le` at `i` read as a two's complement value.
    fn i32_le(&self, i: usize) -> (r: i32)
        requires
            i + 4 <= self.content().len(),
        ensures
            r == le_value(self.content().subrange(i as int, i + 4)) as i32,
    {
        self.u32_le(i) as i32
    }

    /// The bits of `u64_le` at `i` read as a two's complement value.
    fn i64_le(&self, i: usize) -> (r: i64)
        requires
            i + 8 <= self.content().len(),
        ensures
            r == le_value(self.content().subrange(i as int, i + 8)) as i64,
    {
        self.u64_le(i) as i64
    }

    /// The bits of `u128_le` at `i` read as a two's complement value.
    fn i128_le(&self, i: usize) -> (r: i128)
        requires
            i + 16 <= self.content().len(),
        ensures
            r == le_value(self.content().subrange(i as int, i + 16)) as i128,
    {
        self.u128_le(i) as i128
    }

    /// The number of bytes; the same as `len`.
    fn size(&self) -> (r: usize)
        ensures
            r == self.content().len(),
    {
        self.len()
    }
}

impl<T: NumberAble + ?Sized> Number for T {

}

} // verus!
