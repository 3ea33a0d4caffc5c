//! Properties that relate several operations, or that hold of every buffer.
use vstd::prelude::*;

use crate::buffer::{advanced, Buffer};
use crate::flat::{lemma_flatten_len, sum_lens};
use crate::number::{be_value, le_value, radix};

verus! {

/// A buffer is exactly as long as its chunks together, whatever sequence of
/// pushes, writes, pipes, slices, truncations and reads produced it.
pub proof fn law_len_is_sum_of_chunks(b: &Buffer)
    ensures
        b@.len() == sum_lens(b.chunks()),
{
    lemma_flatten_len(b.chunks());
}

/// Keeping the first `n` bytes and then dropping one leaves bytes `1..n`,
/// the same as slicing `[1, n)` straight away.
pub proof fn law_truncate_then_advance(s: Seq<u8>, n: nat)
    requires
        1 <= n <= s.len(),
    ensures
        advanced(s.subrange(0, n as int), 1) == s.subrange(1, n as int),
{
    assert(advanced(s.subrange(0, n as int), 1) =~= s.subrange(1, n as int));
}

/// Dropping at least everything leaves nothing, and dropping more from
/// nothing still leaves nothing: the at-end state is stable.
pub proof fn law_advance_past_end(s: Seq<u8>, n: nat, m: nat)
    requires
        n >= s.len(),
    ensures
        advanced(s, n) == Seq::<u8>::empty(),
        advanced(advanced(s, n), m) == Seq::<u8>::empty(),
{
}

/// A value read across a boundary is the values of the two sides put
/// together: reading joined bytes gives the same number however the bytes
/// were split into chunks.
pub proof fn law_value_across_boundary(x: Seq<u8>, y: Seq<u8>)
    ensures
        be_value(x + y) == be_value(x) * radix(y.len()) + be_value(y),
        le_value(x + y) == le_value(x) + radix(x.len()) * le_value(y),
    decreases x.len() + y.len(),
{
    if y.len() > 0 {
        law_value_across_boundary(x, y.drop_last());
        assert((x + y).drop_last() =~= x + y.drop_last());
        assert(be_value(x) * radix(y.len()) == be_value(x) * radix((y.len() - 1) as nat) * 256)
            by (nonlinear_arith)
            requires
                radix(y.len()) == 256 * radix((y.len() - 1) as nat),
        ;
    }
    if x.len() > 0 {
        law_value_across_boundary(x.drop_first(), y);
        assert((x + y).drop_first() =~= x.drop_first() + y);
        assert(radix(x.len()) * le_value(y) == radix((x.len() - 1) as nat) * le_value(y) * 256)
            by (nonlinear_arith)
            requires
                radix(x.len()) == 256 * radix((x.len() - 1) as nat),
        ;
    } else {
        assert(x + y =~= y);
    }
    if y.len() == 0 {
        assert(x + y =~= x);
    }
}

} // verus!
