//! Sequential inclusive prefix sums and folds over 64-bit words.
//!
//! These are the element-wise passes that the chained-scan protocol runs
//! over one block at a time, and also the sequential reference that the
//! parallel protocol must agree with. All sums wrap modulo 2^64, as machine
//! addition does.

use vstd::prelude::*;

verus! {

/// Addition wrapping modulo 2^64.
pub open spec fn wadd(a: u64, b: u64) -> u64 {
    if a + b > u64::MAX {
        (a + b - 0x1_0000_0000_0000_0000) as u64
    } else {
        (a + b) as u64
    }
}

/// The wrapping sum of a sequence of words.
pub open spec fn wsum(s: Seq<u64>) -> u64
    decreases s.len(),
{
    if s.len() == 0 {
        0u64
    } else {
        wadd(wsum(s.drop_last()), s.last())
    }
}

/// The inclusive prefix sums of `s`, each offset by `initial`: element `i`
/// is `initial` plus the sum of `s[0 ..= i]`, wrapping.
pub open spec fn wprefixes(initial: u64, s: Seq<u64>) -> Seq<u64> {
    Seq::new(s.len(), |i: int| wadd(initial, wsum(s.subrange(0, i + 1))))
}

/// Wrapping addition is associative.
pub proof fn lemma_wadd_assoc(a: u64, b: u64, c: u64)
    ensures
        wadd(wadd(a, b), c) == wadd(a, wadd(b, c)),
{
}

/// The wrapping sum of a concatenation is the wrapping sum of the parts.
pub proof fn lemma_wsum_concat(s: Seq<u64>, t: Seq<u64>)
    ensures
        wsum(s + t) == wadd(wsum(s), wsum(t)),
    decreases t.len(),
{
    if t.len() == 0 {
        assert(s + t =~= s);
    } else {
        lemma_wsum_concat(s, t.drop_last());
        assert((s + t).drop_last() =~= s + t.drop_last());
        assert((s + t).last() == t.last());
        lemma_wadd_assoc(wsum(s), wsum(t.drop_last()), t.last());
    }
}

/// Splitting a prefix of `s` at `mid` splits its wrapping sum.
pub proof fn lemma_wsum_split(s: Seq<u64>, lo: int, mid: int, hi: int)
    requires
        0 <= lo <= mid <= hi <= s.len(),
    ensures
        wsum(s.subrange(lo, hi)) == wadd(wsum(s.subrange(lo, mid)), wsum(s.subrange(mid, hi))),
{
    assert(s.subrange(lo, hi) =~= s.subrange(lo, mid) + s.subrange(mid, hi));
    lemma_wsum_concat(s.subrange(lo, mid), s.subrange(mid, hi));
}

/// Writes the inclusive prefix sums of `input[lo .. hi]`, starting from the
/// accumulator `initial`, into `output[lo .. hi]`; the rest of `output` is
/// untouched. Returns the accumulator after the last element.
pub fn scan_range(input: &Vec<u64>, lo: usize, hi: usize, initial: u64, output: &mut Vec<u64>) -> (r:
    u64)
    requires
        lo <= hi <= input@.len(),
        old(output)@.len() == input@.len(),
    ensures
        final(output)@.len() == input@.len(),
        forall|i: int|
            lo <= i < hi ==> final(output)@[i] == wadd(
                initial,
                wsum(input@.subrange(lo as int, i + 1)),
            ),
        forall|i: int|
            0 <= i < input@.len() && !(lo <= i < hi) ==> final(output)@[i] == old(output)@[i],
        r == wadd(initial, wsum(input@.subrange(lo as int, hi as int))),
{
    let mut accumulator = initial;
    let mut i = lo;
    proof {
        assert(input@.subrange(lo as int, lo as int) =~= Seq::<u64>::empty());
    }
    while i < hi
        invariant
            lo <= i <= hi <= input@.len(),
            output@.len() == input@.len(),
            accumulator == wadd(initial, wsum(input@.subrange(lo as int, i as int))),
            forall|j: int|
                lo <= j < i ==> output@[j] == wadd(initial, wsum(input@.subrange(lo as int, j + 1))),
            forall|j: int| 0 <= j < input@.len() && !(lo <= j < i) ==> output@[j] == old(output)@[j],
        decreases hi - i,
    {
        proof {
            assert(input@.subrange(lo as int, i + 1).drop_last() =~= input@.subrange(
                lo as int,
                i as int,
            ));
            lemma_wadd_assoc(initial, wsum(input@.subrange(lo as int, i as int)), input@[i as int]);
        }
        accumulator = accumulator.wrapping_add(input[i]);
        output.set(i, accumulator);
        i = i + 1;
    }
    accumulator
}

/// Writes the inclusive prefix sums of the whole of `input` into `output`,
/// starting from the accumulator `initial`; returns the final accumulator.
pub fn scan_sequential(input: &Vec<u64>, initial: u64, output: &mut Vec<u64>) -> (r: u64)
    requires
        old(output)@.len() == input@.len(),
    ensures
        final(output)@ == wprefixes(initial, input@),
        r == wadd(initial, wsum(input@)),
{
    let r = scan_range(input, 0, input.len(), initial, output);
    proof {
        assert(input@.subrange(0, input@.len() as int) =~= input@);
        assert(output@ =~= wprefixes(initial, input@));
    }
    r
}

/// The wrapping sum of `input[lo .. hi]`.
pub fn fold_range(input: &Vec<u64>, lo: usize, hi: usize) -> (r: u64)
    requires
        lo <= hi <= input@.len(),
    ensures
        r == wsum(input@.subrange(lo as int, hi as int)),
{
    let mut accumulator: u64 = 0;
    let mut i = lo;
    proof {
        assert(input@.subrange(lo as int, lo as int) =~= Seq::<u64>::empty());
    }
    while i < hi
        invariant
            lo <= i <= hi <= input@.len(),
            accumulator == wsum(input@.subrange(lo as int, i as int)),
        decreases hi - i,
    {
        proof {
            assert(input@.subrange(lo as int, i + 1).drop_last() =~= input@.subrange(
                lo as int,
                i as int,
            ));
        }
        accumulator = accumulator.wrapping_add(input[i]);
        i = i + 1;
    }
    accumulator
}

/// The wrapping sum of the whole array.
pub fn fold_sequential(array: &Vec<u64>) -> (r: u64)
    ensures
        r == wsum(array@),
{
    let r = fold_range(array, 0, array.len());
    proof {
        assert(array@.subrange(0, array@.len() as int) =~= array@);
    }
    r
}

/// Scans every input array into the output array of the same rank, each
/// starting from accumulator zero; output arrays beyond the inputs are
/// untouched.
pub fn reference_sequential(inputs: &Vec<Vec<u64>>, outputs: &mut Vec<Vec<u64>>)
    requires
        inputs@.len() <= old(outputs)@.len(),
        forall|k: int| 0 <= k < inputs@.len() ==> old(outputs)@[k]@.len() == inputs@[k]@.len(),
    ensures
        final(outputs)@.len() == old(outputs)@.len(),
        forall|k: int| 0 <= k < inputs@.len() ==> final(outputs)@[k]@ == wprefixes(0, inputs@[k]@),
        forall|k: int|
            inputs@.len() <= k < old(outputs)@.len() ==> final(outputs)@[k] == old(outputs)@[k],
{
    let mut k: usize = 0;
    while k < inputs.len()
        invariant
            inputs@.len() <= outputs@.len(),
            outputs@.len() == old(outputs)@.len(),
            k <= inputs@.len(),
            forall|j: int| 0 <= j < inputs@.len() ==> old(outputs)@[j]@.len() == inputs@[j]@.len(),
            forall|j: int| k <= j < outputs@.len() ==> outputs@[j] == old(outputs)@[j],
            forall|j: int| 0 <= j < k ==> outputs@[j]@ == wprefixes(0, inputs@[j]@),
        decreases inputs@.len() - k,
    {
        let input = &inputs[k];
        let mut taken = outputs.remove(k);
        scan_sequential(input, 0, &mut taken);
        outputs.insert(k, taken);
        k = k + 1;
    }
}

} // verus!
