//! In-place quicksort over a range of an array of 32-bit words.
//!
//! The parallel runtimes sort the two sides of a partition as independent
//! tasks; the partition step and the sequential sort it bottoms out in are
//! verified here: sorting a range leaves the rest of the array untouched
//! and rearranges exactly the elements of the range into ascending order.

use vstd::prelude::*;
use vstd::multiset::Multiset;
use vstd::seq_lib::lemma_multiset_commutative;

verus! {

/// Ranges shorter than this are sorted by insertion sort.
pub const INSERTION_SORT_CUTOFF: usize = 20;

/// The range `lo .. hi` of `s` is in ascending order.
pub open spec fn sorted_range(s: Seq<u32>, lo: int, hi: int) -> bool {
    forall|i: int, j: int| lo <= i <= j < hi ==> s[i] <= s[j]
}

/// The pseudo-random generator that fills the arrays to be sorted, one
/// value per index.
pub open spec fn random_spec(seed: u64) -> u32 {
    let a = vstd::wrapping::u64_specs::wrapping_add(seed, 876998787696);
    let b = vstd::wrapping::u64_specs::wrapping_mul(a, 35334534876231);
    let c = b ^ (b << 19);
    let d = c ^ (c >> 23);
    let e = d ^ (d << 13);
    let f = e ^ (e >> 17);
    let g = f ^ (f << 5);
    (g & 0xFFFFFFFF) as u32
}

/// Draws the pseudo-random value for one index.
pub fn random(seed: u64) -> (r: u32)
    ensures
        r == random_spec(seed),
{
    let mut s = seed;
    s = s.wrapping_add(876998787696);
    s = s.wrapping_mul(35334534876231);
    s ^= s << 19;
    s ^= s >> 23;
    s ^= s << 13;
    s ^= s >> 17;
    s ^= s << 5;
    (s & 0xFFFFFFFF) as u32
}

/// How many follow-on sort tasks a partition at `pivot` spawns: one for
/// each side that holds more than a trivial number of elements.
pub fn count_recursive_calls(len: usize, pivot: usize) -> (r: usize)
    requires
        pivot <= len,
    ensures
        r == (if pivot > 1 {
            1int
        } else {
            0int
        }) + (if len - pivot > 2 {
            1int
        } else {
            0int
        }),
{
    let mut count: usize = 0;
    if pivot > 1 {
        // Left segment is non-trivial.
        count += 1;
    }
    if len - pivot > 2 {
        count += 1;
    }
    count
}

/// Overwriting one position exchanges that element in the multiset.
proof fn lemma_update_multiset(s: Seq<u32>, i: int, x: u32)
    requires
        0 <= i < s.len(),
    ensures
        s.update(i, x).to_multiset() =~= s.to_multiset().remove(s[i]).insert(x),
{
    broadcast use vstd::multiset::group_multiset_axioms;
    broadcast use vstd::seq_lib::group_to_multiset_ensures;

    let front = s.subrange(0, i);
    let back = s.subrange(i + 1, s.len() as int);
    assert(s =~= front + seq![s[i]] + back);
    assert(s.update(i, x) =~= front + seq![x] + back);
    lemma_multiset_commutative(front, seq![s[i]]);
    lemma_multiset_commutative(front + seq![s[i]], back);
    lemma_multiset_commutative(front, seq![x]);
    lemma_multiset_commutative(front + seq![x], back);
    lemma_singleton_multiset(s[i]);
    lemma_singleton_multiset(x);
}

/// The multiset of a one-element sequence is the singleton multiset.
proof fn lemma_singleton_multiset(v: u32)
    ensures
        seq![v].to_multiset() =~= Multiset::empty().insert(v),
{
    broadcast use vstd::multiset::group_multiset_axioms;
    broadcast use vstd::seq_lib::group_to_multiset_ensures;

    assert(seq![v] =~= Seq::<u32>::empty().push(v));
    vstd::seq_lib::to_multiset_build(Seq::<u32>::empty(), v);
    assert(Seq::<u32>::empty().to_multiset().len() == 0);
    vstd::multiset::lemma_multiset_empty_len(Seq::<u32>::empty().to_multiset());
}

/// Exchanging two positions leaves the multiset of the elements unchanged.
proof fn lemma_swap_multiset(s: Seq<u32>, i: int, j: int)
    requires
        0 <= i < s.len(),
        0 <= j < s.len(),
    ensures
        s.update(i, s[j]).update(j, s[i]).to_multiset() =~= s.to_multiset(),
{
    broadcast use vstd::multiset::group_multiset_axioms;

    if i == j {
        assert(s.update(i, s[j]).update(j, s[i]) =~= s);
    } else {
        let s1 = s.update(i, s[j]);
        lemma_update_multiset(s, i, s[j]);
        assert(s1[j] == s[j]);
        lemma_update_multiset(s1, j, s[i]);
        assert forall|x: u32|
            s.update(i, s[j]).update(j, s[i]).to_multiset().count(x) == s.to_multiset().count(
                x,
            ) by {
            assert(s.to_multiset().count(s[i]) > 0) by {
                broadcast use vstd::seq_lib::group_to_multiset_ensures;

                assert(s.contains(s[i]));
            }
            assert(s1.to_multiset().count(s[j]) > 0) by {
                broadcast use vstd::seq_lib::group_to_multiset_ensures;

                assert(s1.contains(s[j]));
            }
        }
    }
}

/// Exchanging two positions inside a range leaves the multiset of that
/// range unchanged.
proof fn lemma_swap_range_multiset(s: Seq<u32>, lo: int, hi: int, i: int, j: int)
    requires
        0 <= lo <= i < hi <= s.len(),
        lo <= j < hi,
    ensures
        s.update(i, s[j]).update(j, s[i]).subrange(lo, hi).to_multiset() =~= s.subrange(
            lo,
            hi,
        ).to_multiset(),
{
    let t = s.subrange(lo, hi);
    assert(s.update(i, s[j]).update(j, s[i]).subrange(lo, hi) =~= t.update(i - lo, t[j - lo]).update(
        j - lo,
        t[i - lo],
    ));
    lemma_swap_multiset(t, i - lo, j - lo);
}

/// Every element of a range stays in the range when the multiset is
/// preserved: whatever bound held of all old elements holds of all new
/// ones.
proof fn lemma_range_bound_preserved(a: Seq<u32>, b: Seq<u32>, v: u32, below: bool)
    requires
        a.to_multiset() == b.to_multiset(),
        below ==> forall|i: int| 0 <= i < a.len() ==> #[trigger] a[i] < v,
        !below ==> forall|i: int| 0 <= i < a.len() ==> #[trigger] a[i] >= v,
    ensures
        below ==> forall|i: int| 0 <= i < b.len() ==> #[trigger] b[i] < v,
        !below ==> forall|i: int| 0 <= i < b.len() ==> #[trigger] b[i] >= v,
{
    broadcast use vstd::multiset::group_multiset_axioms;
    broadcast use vstd::seq_lib::group_to_multiset_ensures;

    assert forall|i: int| 0 <= i < b.len() implies (below ==> #[trigger] b[i] < v) && (!below
        ==> b[i] >= v) by {
        assert(b.to_multiset().count(b[i]) > 0);
        assert(a.to_multiset().count(b[i]) > 0);
        assert(a.contains(b[i]));
        let k = choose|k: int| 0 <= k < a.len() && a[k] == b[i];
        assert(below ==> a[k] < v);
        assert(!below ==> a[k] >= v);
    }
}

/// Exchanges the elements at `i` and `j`.
fn swap(array: &mut Vec<u32>, i: usize, j: usize)
    requires
        i < old(array)@.len(),
        j < old(array)@.len(),
    ensures
        final(array)@ == old(array)@.update(i as int, old(array)@[j as int]).update(
            j as int,
            old(array)@[i as int],
        ),
{
    let vi = array[i];
    let vj = array[j];
    array.set(i, vj);
    array.set(j, vi);
}

/// Partitions `array[lo .. hi]` around the pivot stored at `lo`: after the
/// call, everything in `lo + 1 ..= p` is below the pivot and everything in
/// `p + 1 .. hi` is at or above it, while the pivot itself has not moved.
/// `p` is the position where the pivot belongs.
pub fn partition(array: &mut Vec<u32>, lo: usize, hi: usize) -> (p: usize)
    requires
        lo + 1 < hi,
        hi <= old(array)@.len(),
    ensures
        lo <= p < hi,
        final(array)@.len() == old(array)@.len(),
        forall|k: int| 0 <= k < old(array)@.len() && !(lo <= k < hi) ==> final(array)@[k] == old(
            array,
        )@[k],
        final(array)@.subrange(lo as int, hi as int).to_multiset() == old(array)@.subrange(
            lo as int,
            hi as int,
        ).to_multiset(),
        final(array)@[lo as int] == old(array)@[lo as int],
        forall|k: int| lo < k <= p ==> #[trigger] final(array)@[k] < old(array)@[lo as int],
        forall|k: int| p < k < hi ==> #[trigger] final(array)@[k] >= old(array)@[lo as int],
{
    let ghost len = old(array)@.len() as int;
    let pivot = array[lo];
    let mut left = lo + 1;
    let mut right = hi - 1;
    loop
        invariant_except_break
            lo + 1 <= left <= hi,
            lo <= right < hi,
            left <= right + 1,
            array@.len() == len,
            hi <= len,
            lo + 1 < hi,
            pivot == old(array)@[lo as int],
            array@[lo as int] == pivot,
            forall|k: int| 0 <= k < len && !(lo <= k < hi) ==> array@[k] == old(array)@[k],
            array@.subrange(lo as int, hi as int).to_multiset() == old(array)@.subrange(
                lo as int,
                hi as int,
            ).to_multiset(),
            forall|k: int| lo < k < left ==> #[trigger] array@[k] < pivot,
            forall|k: int| right < k < hi ==> #[trigger] array@[k] >= pivot,
        ensures
            lo <= right < hi,
            left == right + 1,
            array@.len() == len,
            array@[lo as int] == pivot,
            forall|k: int| 0 <= k < len && !(lo <= k < hi) ==> array@[k] == old(array)@[k],
            array@.subrange(lo as int, hi as int).to_multiset() == old(array)@.subrange(
                lo as int,
                hi as int,
            ).to_multiset(),
            forall|k: int| lo < k < left ==> #[trigger] array@[k] < pivot,
            forall|k: int| right < k < hi ==> #[trigger] array@[k] >= pivot,
        decreases right + 1 - left,
    {
        while left < hi && array[left] < pivot
            invariant
                lo + 1 <= left <= hi,
                lo <= right < hi,
                array@.len() == len,
                hi <= len,
                left <= right + 1,
                pivot == old(array)@[lo as int],
                array@[lo as int] == pivot,
                forall|k: int| 0 <= k < len && !(lo <= k < hi) ==> array@[k] == old(array)@[k],
                array@.subrange(lo as int, hi as int).to_multiset() == old(array)@.subrange(
                    lo as int,
                    hi as int,
                ).to_multiset(),
                forall|k: int| lo < k < left ==> #[trigger] array@[k] < pivot,
                forall|k: int| right < k < hi ==> #[trigger] array@[k] >= pivot,
            decreases hi - left,
        {
            left = left + 1;
        }
        while right > lo && array[right] >= pivot
            invariant
                lo + 1 <= left <= hi,
                lo <= right < hi,
                array@.len() == len,
                hi <= len,
                left <= right + 1 || right == lo,
                pivot == old(array)@[lo as int],
                array@[lo as int] == pivot,
                forall|k: int| 0 <= k < len && !(lo <= k < hi) ==> array@[k] == old(array)@[k],
                array@.subrange(lo as int, hi as int).to_multiset() == old(array)@.subrange(
                    lo as int,
                    hi as int,
                ).to_multiset(),
                forall|k: int| lo < k < left ==> #[trigger] array@[k] < pivot,
                forall|k: int| right < k < hi ==> #[trigger] array@[k] >= pivot,
            decreases right,
        {
            right = right - 1;
        }
        if left >= right {
            proof {
                // The scans met. They cannot rest on the same position —
                // that position would have to be both below and at least
                // the pivot — so the left scan stands one past the right
                // one.
                if left == right {
                    if left == hi {
                        assert(false);
                    } else if right == lo {
                        assert(false);
                    } else {
                        assert(array@[left as int] >= pivot);
                        assert(array@[right as int] < pivot);
                        assert(false);
                    }
                }
                if left > right + 1 {
                    assert(array@[right + 1] < pivot);
                    assert(array@[right + 1] >= pivot);
                    assert(false);
                }
            }
            break ;
        }
        let ghost before = array@;
        swap(array, left, right);
        proof {
            lemma_swap_range_multiset(before, lo as int, hi as int, left as int, right as int);
        }
        left = left + 1;
        right = right - 1;
    }
    right
}

/// Sorts `array[lo .. hi]` by straight insertion, used for short ranges.
pub fn insertion_sort(array: &mut Vec<u32>, lo: usize, hi: usize)
    requires
        lo <= hi <= old(array)@.len(),
        hi - lo <= INSERTION_SORT_CUTOFF,
    ensures
        final(array)@.len() == old(array)@.len(),
        forall|k: int| 0 <= k < old(array)@.len() && !(lo <= k < hi) ==> final(array)@[k] == old(
            array,
        )@[k],
        final(array)@.subrange(lo as int, hi as int).to_multiset() == old(array)@.subrange(
            lo as int,
            hi as int,
        ).to_multiset(),
        sorted_range(final(array)@, lo as int, hi as int),
{
    let ghost len = old(array)@.len() as int;
    if hi - lo <= 1 {
        return ;
    }
    let mut idx = lo + 1;
    while idx < hi
        invariant
            lo + 1 <= idx <= hi,
            hi <= len,
            array@.len() == len,
            forall|k: int| 0 <= k < len && !(lo <= k < hi) ==> array@[k] == old(array)@[k],
            array@.subrange(lo as int, hi as int).to_multiset() == old(array)@.subrange(
                lo as int,
                hi as int,
            ).to_multiset(),
            sorted_range(array@, lo as int, idx as int),
        decreases hi - idx,
    {
        let mut j = idx;
        while j > lo && array[j - 1] > array[j]
            invariant
                lo <= j <= idx < hi <= len,
                array@.len() == len,
                forall|k: int| 0 <= k < len && !(lo <= k < hi) ==> array@[k] == old(array)@[k],
                array@.subrange(lo as int, hi as int).to_multiset() == old(array)@.subrange(
                    lo as int,
                    hi as int,
                ).to_multiset(),
                forall|i1: int, i2: int|
                    lo <= i1 <= i2 <= idx && i1 != j && i2 != j ==> array@[i1] <= array@[i2],
                forall|i: int| j < i <= idx ==> array@[j as int] <= #[trigger] array@[i],
            decreases j,
        {
            let ghost before = array@;
            swap(array, j - 1, j);
            proof {
                lemma_swap_range_multiset(before, lo as int, hi as int, j - 1, j as int);
            }
            j = j - 1;
        }
        proof {
            assert forall|i1: int, i2: int| lo <= i1 <= i2 <= idx implies array@[i1]
                <= array@[i2] by {
                if i1 == j && i2 != j {
                } else if i2 == j && i1 != j {
                    assert(array@[i1] <= array@[j - 1]);
                }
            }
        }
        idx = idx + 1;
    }
}

/// Sorts `array[lo .. hi]` in place: short ranges by insertion sort,
/// longer ones by partitioning around the first element and sorting both
/// sides.
pub fn sort(array: &mut Vec<u32>, lo: usize, hi: usize)
    requires
        lo <= hi <= old(array)@.len(),
    ensures
        final(array)@.len() == old(array)@.len(),
        forall|k: int| 0 <= k < old(array)@.len() && !(lo <= k < hi) ==> final(array)@[k] == old(
            array,
        )@[k],
        final(array)@.subrange(lo as int, hi as int).to_multiset() == old(array)@.subrange(
            lo as int,
            hi as int,
        ).to_multiset(),
        sorted_range(final(array)@, lo as int, hi as int),
    decreases hi - lo,
{
    let ghost len = old(array)@.len() as int;
    if hi - lo <= 1 {
        return ;
    }
    if hi - lo <= INSERTION_SORT_CUTOFF {
        insertion_sort(array, lo, hi);
        return ;
    }
    let pivot = array[lo];
    let p = partition(array, lo, hi);
    let ghost after_partition = array@;
    // Move the pivot to the position the partition found for it.
    let vp = array[p];
    array.set(lo, vp);
    array.set(p, pivot);
    proof {
        assert(array@ == after_partition.update(lo as int, after_partition[p as int]).update(
            p as int,
            after_partition[lo as int],
        ));
        lemma_swap_range_multiset(after_partition, lo as int, hi as int, lo as int, p as int);
    }
    let ghost after_swap = array@;
    proof {
        // Everything left of the pivot position is below the pivot: the
        // partition put it in `lo + 1 ..= p`, and the swap moved the element
        // from `p` down to `lo`.
        assert forall|k: int| lo <= k < p implies #[trigger] after_swap.subrange(
            lo as int,
            p as int,
        )[k - lo] < pivot by {
            if k == lo {
                assert(after_swap[k] == after_partition[p as int]);
            } else {
                assert(after_swap[k] == after_partition[k]);
            }
        }
    }
    sort(array, lo, p);
    proof {
        assert(after_swap.subrange(lo as int, hi as int) =~= after_swap.subrange(lo as int, p as int)
            + after_swap.subrange(p as int, hi as int));
        assert(array@.subrange(lo as int, hi as int) =~= array@.subrange(lo as int, p as int)
            + array@.subrange(p as int, hi as int));
        assert(array@.subrange(p as int, hi as int) =~= after_swap.subrange(p as int, hi as int));
        lemma_multiset_commutative(after_swap.subrange(lo as int, p as int), after_swap.subrange(p as int, hi as int));
        lemma_multiset_commutative(array@.subrange(lo as int, p as int), array@.subrange(p as int, hi as int));
        lemma_range_bound_preserved(
            after_swap.subrange(lo as int, p as int),
            array@.subrange(lo as int, p as int),
            pivot,
            true,
        );
    }
    let ghost after_left = array@;
    proof {
        // Everything right of the pivot position is still at or above the
        // pivot: the partition put it there, and neither the pivot swap nor
        // sorting the left side touched it.
        assert forall|k: int| p < k < hi implies #[trigger] after_left.subrange(
            (p + 1) as int,
            hi as int,
        )[k - p - 1] >= pivot by {
            assert(after_left[k] == after_swap[k]);
        }
    }
    sort(array, p + 1, hi);
    proof {
        assert(after_left.subrange(lo as int, hi as int) =~= after_left.subrange(
            lo as int,
            (p + 1) as int,
        ) + after_left.subrange((p + 1) as int, hi as int));
        assert(array@.subrange(lo as int, hi as int) =~= array@.subrange(lo as int, (p + 1) as int)
            + array@.subrange((p + 1) as int, hi as int));
        assert(array@.subrange(lo as int, (p + 1) as int) =~= after_left.subrange(
            lo as int,
            (p + 1) as int,
        ));
        lemma_multiset_commutative(
            after_left.subrange(lo as int, (p + 1) as int),
            after_left.subrange((p + 1) as int, hi as int),
        );
        lemma_multiset_commutative(
            array@.subrange(lo as int, (p + 1) as int),
            array@.subrange((p + 1) as int, hi as int),
        );
        lemma_range_bound_preserved(
            after_left.subrange((p + 1) as int, hi as int),
            array@.subrange((p + 1) as int, hi as int),
            pivot,
            false,
        );
        assert(array@[p as int] == pivot);
        assert forall|k: int| lo <= k < p implies #[trigger] array@[k] < pivot by {
            assert(array@[k] == after_left[k]);
            assert(after_left.subrange(lo as int, p as int)[k - lo] < pivot);
        }
        assert forall|k: int| p < k < hi implies #[trigger] array@[k] >= pivot by {
            assert(array@.subrange((p + 1) as int, hi as int)[k - p - 1] >= pivot);
        }
        assert forall|i: int, j: int| lo <= i <= j < hi implies array@[i] <= array@[j] by {
            if j < p {
                assert(array@[i] == after_left[i]);
                assert(array@[j] == after_left[j]);
            } else if j == p {
                if i < p {
                    assert(array@[i] < pivot);
                }
            } else if i > p {
                assert(sorted_range(array@, (p + 1) as int, hi as int));
            } else {
                // i at or left of the pivot position, j strictly right.
                if i < p {
                    assert(array@[i] < pivot);
                }
                assert(array@[j] >= pivot);
            }
        }
    }
}

} // verus!
