//! Facts about a sequence of chunks read as one run of bytes.
use vstd::prelude::*;
use vstd::seq_lib::lemma_flatten_concat;

verus! {

/// The number of bytes held by the first `k` chunks.
pub open spec fn prefix_len(cs: Seq<Seq<u8>>, k: int) -> nat {
    cs.take(k).flatten().len()
}

/// The total number of bytes, chunk by chunk.
pub open spec fn sum_lens(cs: Seq<Seq<u8>>) -> nat
    decreases cs.len(),
{
    if cs.len() == 0 {
        0
    } else {
        sum_lens(cs.drop_last()) + cs.last().len()
    }
}

pub proof fn lemma_flatten_split(cs: Seq<Seq<u8>>, k: int)
    requires
        0 <= k <= cs.len(),
    ensures
        cs.flatten() == cs.take(k).flatten() + cs.skip(k).flatten(),
{
    assert(cs =~= cs.take(k) + cs.skip(k));
    lemma_flatten_concat(cs.take(k), cs.skip(k));
}

pub proof fn lemma_flatten_take_step(cs: Seq<Seq<u8>>, k: int)
    requires
        0 <= k < cs.len(),
    ensures
        cs.take(k + 1).flatten() == cs.take(k).flatten() + cs[k],
{
    assert(cs.take(k + 1) =~= cs.take(k).push(cs[k]));
    cs.take(k).lemma_flatten_push(cs[k]);
}

/// Where chunk `k` lies in the flattened bytes.
pub proof fn lemma_chunk_in_flatten(cs: Seq<Seq<u8>>, k: int)
    requires
        0 <= k < cs.len(),
    ensures
        prefix_len(cs, k) + cs[k].len() == prefix_len(cs, k + 1),
        prefix_len(cs, k + 1) <= cs.flatten().len(),
        cs.flatten().subrange(0, prefix_len(cs, k) as int) == cs.take(k).flatten(),
        cs.flatten().subrange(prefix_len(cs, k) as int, prefix_len(cs, k + 1) as int) == cs[k],
        cs.flatten().subrange(0, prefix_len(cs, k + 1) as int) == cs.take(k + 1).flatten(),
{
    lemma_flatten_split(cs, k);
    lemma_flatten_split(cs, k + 1);
    lemma_flatten_take_step(cs, k);
    let p = prefix_len(cs, k) as int;
    let q = prefix_len(cs, k + 1) as int;
    assert(cs.flatten().subrange(0, p) =~= cs.take(k).flatten());
    assert(cs.flatten().subrange(0, q) =~= cs.take(k + 1).flatten());
    assert(cs.flatten().subrange(p, q) =~= cs[k]);
}

/// The whole run is as long as the chunks together.
pub proof fn lemma_flatten_len(cs: Seq<Seq<u8>>)
    ensures
        cs.flatten().len() == sum_lens(cs),
    decreases cs.len(),
{
    if cs.len() > 0 {
        lemma_flatten_len(cs.drop_last());
        assert(cs =~= cs.drop_last().push(cs.last()));
        cs.drop_last().lemma_flatten_push(cs.last());
    }
}

/// Removing the first chunk removes its bytes from the front.
pub proof fn lemma_flatten_drop_first(cs: Seq<Seq<u8>>)
    requires
        cs.len() > 0,
    ensures
        cs.flatten() == cs[0] + cs.drop_first().flatten(),
{
}

/// Removing the last chunk removes its bytes from the back.
pub proof fn lemma_flatten_drop_last(cs: Seq<Seq<u8>>)
    requires
        cs.len() > 0,
    ensures
        cs.flatten() == cs.drop_last().flatten() + cs.last(),
{
    assert(cs =~= cs.drop_last().push(cs.last()));
    cs.drop_last().lemma_flatten_push(cs.last());
}

} // verus!
