//! Stream compaction: keeping the elements that satisfy a predicate,
//! in their original order.
//!
//! The predicate scrambles each value with a fixed xorshift step and keeps
//! it when the scrambled value has all bits of a mask set. Compaction
//! writes the kept elements densely from a given output position; counting
//! tells each parallel block where its output begins.

use vstd::prelude::*;

verus! {

/// Whether `value` is kept under `mask`: the value is scrambled by a fixed
/// xorshift step and kept when every bit of the mask is set in the result.
pub open spec fn pred(mask: u64, value: u64) -> bool {
    let a = value ^ (value >> 11);
    let b = a ^ (a << 7);
    let c = b ^ (b >> 5);
    (c & mask) == mask
}

/// The elements of `s` that are kept under `mask`, in order.
pub open spec fn matching(mask: u64, s: Seq<u64>) -> Seq<u64>
    decreases s.len(),
{
    if s.len() == 0 {
        Seq::empty()
    } else if pred(mask, s.last()) {
        matching(mask, s.drop_last()).push(s.last())
    } else {
        matching(mask, s.drop_last())
    }
}

/// How many elements of `s` are kept under `mask`.
pub open spec fn count_matching(mask: u64, s: Seq<u64>) -> nat {
    matching(mask, s).len()
}

/// No more elements are kept than the sequence has.
pub proof fn lemma_count_matching_le_len(mask: u64, s: Seq<u64>)
    ensures
        count_matching(mask, s) <= s.len(),
    decreases s.len(),
{
    if s.len() > 0 {
        lemma_count_matching_le_len(mask, s.drop_last());
    }
}

/// What a concatenation keeps is what its parts keep, in order.
pub proof fn lemma_matching_concat(mask: u64, s: Seq<u64>, t: Seq<u64>)
    ensures
        matching(mask, s + t) == matching(mask, s) + matching(mask, t),
    decreases t.len(),
{
    if t.len() == 0 {
        assert(s + t =~= s);
        assert(matching(mask, s) + matching(mask, t) =~= matching(mask, s));
    } else {
        lemma_matching_concat(mask, s, t.drop_last());
        assert((s + t).drop_last() =~= s + t.drop_last());
        assert((s + t).last() == t.last());
        if pred(mask, t.last()) {
            assert(matching(mask, s) + matching(mask, t) =~= (matching(mask, s) + matching(
                mask,
                t.drop_last(),
            )).push(t.last()));
        }
    }
}

/// Splitting a range splits what it keeps.
pub proof fn lemma_matching_split(mask: u64, s: Seq<u64>, lo: int, mid: int, hi: int)
    requires
        0 <= lo <= mid <= hi <= s.len(),
    ensures
        matching(mask, s.subrange(lo, hi)) == matching(mask, s.subrange(lo, mid)) + matching(
            mask,
            s.subrange(mid, hi),
        ),
{
    assert(s.subrange(lo, hi) =~= s.subrange(lo, mid) + s.subrange(mid, hi));
    lemma_matching_concat(mask, s.subrange(lo, mid), s.subrange(mid, hi));
}

/// Whether `value` is kept under `mask`.
pub fn predicate(mask: u64, value: u64) -> (r: bool)
    ensures
        r == pred(mask, value),
{
    let mut v = value;
    v ^= v >> 11;
    v ^= v << 7;
    v ^= v >> 5;
    (v & mask) == mask
}

/// Counts the elements of `input[lo .. hi]` that are kept under `mask`.
pub fn count_range(mask: u64, input: &Vec<u64>, lo: usize, hi: usize) -> (r: usize)
    requires
        lo <= hi <= input@.len(),
    ensures
        r == count_matching(mask, input@.subrange(lo as int, hi as int)),
{
    let mut count: usize = 0;
    let mut i = lo;
    proof {
        assert(input@.subrange(lo as int, lo as int) =~= Seq::<u64>::empty());
    }
    while i < hi
        invariant
            lo <= i <= hi <= input@.len(),
            count == count_matching(mask, input@.subrange(lo as int, i as int)),
            count <= i - lo,
        decreases hi - i,
    {
        proof {
            assert(input@.subrange(lo as int, i + 1).drop_last() =~= input@.subrange(
                lo as int,
                i as int,
            ));
            assert(input@.subrange(lo as int, i + 1).last() == input@[i as int]);
        }
        if predicate(mask, input[i]) {
            count = count + 1;
        }
        i = i + 1;
    }
    count
}

/// Counts the elements of `input` that are kept under `mask`.
pub fn count_sequential(mask: u64, input: &Vec<u64>) -> (r: usize)
    ensures
        r == count_matching(mask, input@),
{
    let r = count_range(mask, input, 0, input.len());
    proof {
        assert(input@.subrange(0, input@.len() as int) =~= input@);
    }
    r
}

/// Writes the kept elements of `input[lo .. hi]` densely into `output`,
/// starting at `output_index`; returns the position after the last element
/// written. The rest of `output` is untouched.
pub fn compact_range(
    mask: u64,
    input: &Vec<u64>,
    lo: usize,
    hi: usize,
    output: &mut Vec<u64>,
    output_index: usize,
) -> (r: usize)
    requires
        lo <= hi <= input@.len(),
        output_index + count_matching(mask, input@.subrange(lo as int, hi as int)) <= old(
            output,
        )@.len(),
    ensures
        r == output_index + count_matching(mask, input@.subrange(lo as int, hi as int)),
        final(output)@.len() == old(output)@.len(),
        forall|j: int|
            0 <= j < count_matching(mask, input@.subrange(lo as int, hi as int))
                ==> final(output)@[output_index + j] == matching(
                mask,
                input@.subrange(lo as int, hi as int),
            )[j],
        forall|j: int|
            0 <= j < old(output)@.len() && !(output_index <= j < output_index + count_matching(
                mask,
                input@.subrange(lo as int, hi as int),
            )) ==> final(output)@[j] == old(output)@[j],
{
    let ghost whole = input@.subrange(lo as int, hi as int);
    let mut out = output_index;
    let mut i = lo;
    proof {
        assert(input@.subrange(lo as int, lo as int) =~= Seq::<u64>::empty());
    }
    while i < hi
        invariant
            lo <= i <= hi <= input@.len(),
            whole == input@.subrange(lo as int, hi as int),
            out == output_index + count_matching(mask, input@.subrange(lo as int, i as int)),
            output_index + count_matching(mask, whole) <= old(output)@.len(),
            output@.len() == old(output)@.len(),
            count_matching(mask, input@.subrange(lo as int, i as int)) <= count_matching(
                mask,
                whole,
            ),
            forall|j: int|
                0 <= j < count_matching(mask, input@.subrange(lo as int, i as int))
                    ==> output@[output_index + j] == matching(
                    mask,
                    input@.subrange(lo as int, i as int),
                )[j],
            forall|j: int|
                0 <= j < old(output)@.len() && !(output_index <= j < out) ==> output@[j] == old(
                    output,
                )@[j],
        decreases hi - i,
    {
        proof {
            assert(input@.subrange(lo as int, i + 1).drop_last() =~= input@.subrange(
                lo as int,
                i as int,
            ));
            assert(input@.subrange(lo as int, i + 1).last() == input@[i as int]);
            lemma_range_is_prefix(mask, input@, lo as int, i + 1, hi as int);
        }
        if predicate(mask, input[i]) {
            proof {
                assert(out + 1 <= output_index + count_matching(mask, whole));
                broadcast use vstd::std_specs::vec::axiom_spec_len;

                assert(vstd::std_specs::vec::spec_vec_len(output) == output@.len());
                assert(output@.len() <= usize::MAX);
            }
            output.set(out, input[i]);
            out = out + 1;
        }
        i = i + 1;
    }
    out
}

/// Writes the kept elements of `input` densely into `output`, starting at
/// `output_index`; returns the position after the last element written.
/// The rest of `output` is untouched.
pub fn compact_sequential(mask: u64, input: &Vec<u64>, output: &mut Vec<u64>, output_index: usize) -> (r:
    usize)
    requires
        output_index + count_matching(mask, input@) <= old(output)@.len(),
    ensures
        r == output_index + count_matching(mask, input@),
        final(output)@.len() == old(output)@.len(),
        forall|j: int|
            0 <= j < count_matching(mask, input@) ==> final(output)@[output_index + j]
                == matching(mask, input@)[j],
        forall|j: int|
            0 <= j < old(output)@.len() && !(output_index <= j < output_index + count_matching(
                mask,
                input@,
            )) ==> final(output)@[j] == old(output)@[j],
{
    proof {
        assert(input@.subrange(0, input@.len() as int) =~= input@);
    }
    compact_range(mask, input, 0, input.len(), output, output_index)
}

/// What an inner range keeps is a prefix of what the range extended to the
/// right keeps.
pub proof fn lemma_range_is_prefix(mask: u64, s: Seq<u64>, lo: int, mid: int, hi: int)
    requires
        0 <= lo <= mid <= hi <= s.len(),
    ensures
        count_matching(mask, s.subrange(lo, mid)) <= count_matching(mask, s.subrange(lo, hi)),
        forall|j: int|
            0 <= j < count_matching(mask, s.subrange(lo, mid)) ==> matching(
                mask,
                s.subrange(lo, mid),
            )[j] == matching(mask, s.subrange(lo, hi))[j],
{
    lemma_matching_split(mask, s, lo, mid, hi);
}

/// Compacts every input array into the output array of the same rank,
/// writing from position zero; output arrays beyond the inputs are
/// untouched.
pub fn reference_sequential(mask: u64, inputs: &Vec<Vec<u64>>, outputs: &mut Vec<Vec<u64>>)
    requires
        inputs@.len() <= old(outputs)@.len(),
        forall|k: int| 0 <= k < inputs@.len() ==> old(outputs)@[k]@.len() == inputs@[k]@.len(),
    ensures
        final(outputs)@.len() == old(outputs)@.len(),
        forall|k: int|
            inputs@.len() <= k < old(outputs)@.len() ==> final(outputs)@[k] == old(outputs)@[k],
        forall|k: int|
            0 <= k < inputs@.len() ==> final(outputs)@[k]@.len() == inputs@[k]@.len() && (forall|
                j: int,
            |
                0 <= j < count_matching(mask, inputs@[k]@) ==> final(outputs)@[k]@[j] == matching(
                    mask,
                    inputs@[k]@,
                )[j]),
{
    let mut k: usize = 0;
    while k < inputs.len()
        invariant
            inputs@.len() <= outputs@.len(),
            outputs@.len() == old(outputs)@.len(),
            k <= inputs@.len(),
            forall|j: int| 0 <= j < inputs@.len() ==> old(outputs)@[j]@.len() == inputs@[j]@.len(),
            forall|j: int| k <= j < outputs@.len() ==> outputs@[j] == old(outputs)@[j],
            forall|j: int|
                0 <= j < k ==> outputs@[j]@.len() == inputs@[j]@.len() && (forall|m: int|
                    0 <= m < count_matching(mask, inputs@[j]@) ==> outputs@[j]@[m] == matching(
                        mask,
                        inputs@[j]@,
                    )[m]),
        decreases inputs@.len() - k,
    {
        let input = &inputs[k];
        let mut taken = outputs.remove(k);
        proof {
            lemma_count_matching_le_len(mask, input@);
        }
        compact_sequential(mask, input, &mut taken, 0);
        outputs.insert(k, taken);
        k = k + 1;
    }
}

} // verus!
