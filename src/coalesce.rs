//! The policies that bound how many chunks a buffer holds, stated over the
//! chunks' views.
use vstd::prelude::*;

verus! {

/// The chunk list after pushing `b` under the coalescing policy: an empty
/// `b` adds nothing; one shorter than `min_unit` joins the last chunk, if
/// there is one; any other is appended as a chunk of its own.
pub open spec fn coalesced(cs: Seq<Seq<u8>>, b: Seq<u8>, min_unit: nat) -> Seq<Seq<u8>> {
    if b.len() == 0 {
        cs
    } else if b.len() < min_unit && cs.len() > 0 {
        cs.drop_last().push(cs.last() + b)
    } else {
        cs.push(b)
    }
}

/// The chunk list after pushing each of `bs`, in order, under the coalescing
/// policy.
pub open spec fn coalesced_all(cs: Seq<Seq<u8>>, bs: Seq<Seq<u8>>, min_unit: nat) -> Seq<
    Seq<u8>,
>
    decreases bs.len(),
{
    if bs.len() == 0 {
        cs
    } else {
        coalesced(coalesced_all(cs, bs.drop_last(), min_unit), bs.last(), min_unit)
    }
}

/// One step of defragmentation: `b` joins the last chunk kept so far while
/// that chunk is still shorter than `min_unit`, and starts a new chunk
/// otherwise.
pub open spec fn merge_step(acc: Seq<Seq<u8>>, b: Seq<u8>, min_unit: nat) -> Seq<Seq<u8>> {
    if acc.len() > 0 && acc.last().len() < min_unit {
        acc.drop_last().push(acc.last() + b)
    } else {
        acc.push(b)
    }
}

/// The chunk list after one defragmentation pass over `cs`, front to back.
pub open spec fn defragmented(cs: Seq<Seq<u8>>, min_unit: nat) -> Seq<Seq<u8>>
    decreases cs.len(),
{
    if cs.len() == 0 {
        cs
    } else {
        merge_step(defragmented(cs.drop_last(), min_unit), cs.last(), min_unit)
    }
}

pub proof fn lemma_flatten_coalesced(cs: Seq<Seq<u8>>, b: Seq<u8>, min_unit: nat)
    ensures
        coalesced(cs, b, min_unit).flatten() == cs.flatten() + b,
{
    if b.len() == 0 {
        assert(cs.flatten() + b =~= cs.flatten());
    } else if b.len() < min_unit && cs.len() > 0 {
        crate::flat::lemma_flatten_drop_last(cs);
        cs.drop_last().lemma_flatten_push(cs.last() + b);
        assert(cs.drop_last().flatten() + (cs.last() + b) =~= cs.flatten() + b);
    } else {
        cs.lemma_flatten_push(b);
    }
}

pub proof fn lemma_flatten_merge_step(acc: Seq<Seq<u8>>, b: Seq<u8>, min_unit: nat)
    ensures
        merge_step(acc, b, min_unit).flatten() == acc.flatten() + b,
{
    if acc.len() > 0 && acc.last().len() < min_unit {
        crate::flat::lemma_flatten_drop_last(acc);
        acc.drop_last().lemma_flatten_push(acc.last() + b);
        assert(acc.drop_last().flatten() + (acc.last() + b) =~= acc.flatten() + b);
    } else {
        acc.lemma_flatten_push(b);
    }
}

/// Defragmentation keeps the bytes and their order, leaves no more chunks
/// than it found, and every chunk but the last reaches `min_unit` bytes.
pub proof fn lemma_defragmented(cs: Seq<Seq<u8>>, min_unit: nat)
    ensures
        defragmented(cs, min_unit).flatten() == cs.flatten(),
        defragmented(cs, min_unit).len() <= cs.len(),
        forall|i: int|
            0 <= i < defragmented(cs, min_unit).len() - 1 ==> #[trigger] defragmented(
                cs,
                min_unit,
            )[i].len() >= min_unit,
    decreases cs.len(),
{
    if cs.len() > 0 {
        let acc = defragmented(cs.drop_last(), min_unit);
        lemma_defragmented(cs.drop_last(), min_unit);
        lemma_flatten_merge_step(acc, cs.last(), min_unit);
        crate::flat::lemma_flatten_drop_last(cs);
        let d = defragmented(cs, min_unit);
        assert forall|i: int| 0 <= i < d.len() - 1 implies #[trigger] d[i].len() >= min_unit by {
            assert(d[i] == acc[i]);
        }
    }
}

/// Pushing chunks that are each shorter than `min_unit` onto a buffer that
/// already has a chunk adds no chunk, and onto an empty one leaves at most
/// one; the bytes are always those of the buffer followed by those pushed.
pub proof fn law_small_pushes_stay_bounded(cs: Seq<Seq<u8>>, bs: Seq<Seq<u8>>, min_unit: nat)
    requires
        forall|i: int| 0 <= i < bs.len() ==> #[trigger] bs[i].len() < min_unit,
    ensures
        coalesced_all(cs, bs, min_unit).flatten() == cs.flatten() + bs.flatten(),
        cs.len() > 0 ==> coalesced_all(cs, bs, min_unit).len() == cs.len(),
        cs.len() == 0 ==> coalesced_all(cs, bs, min_unit).len() <= 1,
    decreases bs.len(),
{
    if bs.len() == 0 {
        assert(cs.flatten() + bs.flatten() =~= cs.flatten());
    } else {
        let rest = bs.drop_last();
        assert forall|i: int| 0 <= i < rest.len() implies #[trigger] rest[i].len() < min_unit by {
            assert(rest[i] == bs[i]);
        }
        law_small_pushes_stay_bounded(cs, rest, min_unit);
        let acc = coalesced_all(cs, rest, min_unit);
        lemma_flatten_coalesced(acc, bs.last(), min_unit);
        crate::flat::lemma_flatten_drop_last(bs);
        assert(cs.flatten() + rest.flatten() + bs.last() =~= cs.flatten() + bs.flatten());
        assert(bs.last().len() < min_unit);
    }
}

} // verus!
