//! Chained compaction with decoupled lookback.
//!
//! Stream compaction runs through the same block protocol as the scan,
//! with counts in place of sums: a block's aggregate is how many of its
//! elements are kept, and its prefix — the count over everything up to its
//! end — is at the same time the output offset at which the next block's
//! kept elements belong. A block whose left neighbour has published its
//! prefix compacts directly into place; any other block publishes its own
//! count and resolves its offset by walking back over predecessor counts.

use crate::compact::{
    compact_range, count_matching, count_range, lemma_count_matching_le_len, lemma_matching_split,
    lemma_range_is_prefix, matching,
};
use crate::lookback::{
    block_end, block_start, can_look_back, initial_states, lemma_block_in_range,
    lemma_lookback_ready_states, lemma_protocol_run_snoc, lemma_start_monotonic, lookback_ready,
    num_blocks, protocol_run, protocol_step, schedule_completes, states_of, BlockInfo, BlockState,
    ScanStep,
};
use vstd::prelude::*;

verus! {

/// How many elements among the first `i` of `input` are kept.
pub open spec fn kept_before(mask: u64, input: Seq<u64>, i: int) -> nat {
    count_matching(mask, input.subrange(0, i))
}

/// What a block's record may say during a compaction: a published
/// aggregate is the block's own kept count, and a published prefix is the
/// kept count of the array up to the block's end.
pub open spec fn cblock_ok(mask: u64, input: Seq<u64>, info: BlockInfo, b: int, bs: int) -> bool {
    &&& (info.state is AggregateAvailable ==> info.aggregate == count_matching(
        mask,
        input.subrange(block_start(b, bs), block_end(b, bs, input.len() as int)),
    ))
    &&& (info.state is PrefixAvailable ==> info.prefix == kept_before(
        mask,
        input,
        block_end(b, bs, input.len() as int),
    ))
}

/// The records as a whole never lie about the input.
pub open spec fn cblocks_wf(mask: u64, input: Seq<u64>, temp: Seq<BlockInfo>, bs: int) -> bool {
    &&& bs >= 1
    &&& temp.len() == num_blocks(input.len() as int, bs)
    &&& forall|b: int| 0 <= b < temp.len() ==> cblock_ok(mask, input, #[trigger] temp[b], b, bs)
}

/// The slice of the compacted output that block `b` is responsible for —
/// the positions between the kept counts at its start and at its end —
/// holds the kept elements of the whole input at those positions.
pub open spec fn cblock_output_ok(
    mask: u64,
    input: Seq<u64>,
    output: Seq<u64>,
    b: int,
    bs: int,
) -> bool {
    forall|p: int|
        kept_before(mask, input, block_start(b, bs)) <= p < kept_before(
            mask,
            input,
            block_end(b, bs, input.len() as int),
        ) ==> #[trigger] output[p] == matching(mask, input)[p]
}

/// The kept count at a block boundary fits beside the block's own count:
/// together they are the kept count at the block's end, and no count
/// exceeds the number of elements counted over.
proof fn lemma_block_counts(mask: u64, input: Seq<u64>, bs: int, b: int)
    requires
        bs >= 1,
        0 <= b < num_blocks(input.len() as int, bs),
    ensures
        kept_before(mask, input, block_start(b, bs)) + count_matching(
            mask,
            input.subrange(block_start(b, bs), block_end(b, bs, input.len() as int)),
        ) == kept_before(mask, input, block_end(b, bs, input.len() as int)),
        kept_before(mask, input, block_end(b, bs, input.len() as int)) <= block_end(
            b,
            bs,
            input.len() as int,
        ),
        kept_before(mask, input, block_start(b, bs)) <= block_start(b, bs),
{
    let len = input.len() as int;
    lemma_block_in_range(len, bs, b);
    let start = block_start(b, bs);
    let end = block_end(b, bs, len);
    lemma_matching_split(mask, input, 0, start, end);
    assert(input.subrange(0, end).subrange(0, start) =~= input.subrange(0, start));
    lemma_count_matching_le_len(mask, input.subrange(0, end));
    lemma_count_matching_le_len(mask, input.subrange(0, start));
}

/// Counting kept elements over a longer prefix counts at least as many.
proof fn lemma_kept_monotonic(mask: u64, input: Seq<u64>, i: int, j: int)
    requires
        0 <= i <= j <= input.len(),
    ensures
        kept_before(mask, input, i) <= kept_before(mask, input, j),
{
    lemma_matching_split(mask, input, 0, i, j);
    assert(input.subrange(0, j).subrange(0, i) =~= input.subrange(0, i));
}

/// The output slice of an earlier block ends before the slice of a later
/// block begins.
proof fn lemma_slice_order(mask: u64, input: Seq<u64>, bs: int, a: int, b: int)
    requires
        bs >= 1,
        0 <= a < b < num_blocks(input.len() as int, bs),
    ensures
        kept_before(mask, input, block_end(a, bs, input.len() as int)) <= kept_before(
            mask,
            input,
            block_start(b, bs),
        ),
{
    let len = input.len() as int;
    lemma_block_in_range(len, bs, a);
    lemma_block_in_range(len, bs, b);
    lemma_start_monotonic(a + 1, b, bs);
    lemma_kept_monotonic(mask, input, block_start(a + 1, bs), block_start(b, bs));
}

/// A write confined to block `b`'s output slice leaves the finished slice
/// of every other block intact.
proof fn lemma_done_preserved(
    mask: u64,
    input: Seq<u64>,
    bs: int,
    out_old: Seq<u64>,
    out_new: Seq<u64>,
    b: int,
    k: int,
)
    requires
        bs >= 1,
        0 <= b < num_blocks(input.len() as int, bs),
        0 <= k < num_blocks(input.len() as int, bs),
        k != b,
        out_old.len() == input.len(),
        out_new.len() == input.len(),
        cblock_output_ok(mask, input, out_old, k, bs),
        forall|p: int|
            0 <= p < out_old.len() && !(kept_before(mask, input, block_start(b, bs)) <= p
                < kept_before(mask, input, block_end(b, bs, input.len() as int))) ==> out_new[p]
                == out_old[p],
    ensures
        cblock_output_ok(mask, input, out_new, k, bs),
{
    let len = input.len() as int;
    lemma_block_counts(mask, input, bs, k);
    lemma_block_in_range(len, bs, k);
    assert forall|p: int|
        kept_before(mask, input, block_start(k, bs)) <= p < kept_before(
            mask,
            input,
            block_end(k, bs, len),
        ) implies #[trigger] out_new[p] == matching(mask, input)[p] by {
        if k < b {
            lemma_slice_order(mask, input, bs, k, b);
        } else {
            lemma_slice_order(mask, input, bs, b, k);
        }
        assert(out_new[p] == out_old[p]);
        assert(out_old[p] == matching(mask, input)[p]);
    }
}

/// The fast path: with the kept count of everything before it in hand,
/// block `b` compacts its kept elements directly into place and publishes
/// the count at its end.
pub fn cblock_direct(
    mask: u64,
    input: &Vec<u64>,
    block_size: usize,
    b: usize,
    incoming: usize,
    temp: &mut Vec<BlockInfo>,
    output: &mut Vec<u64>,
)
    requires
        cblocks_wf(mask, input@, old(temp)@, block_size as int),
        b < old(temp)@.len(),
        incoming == kept_before(mask, input@, block_start(b as int, block_size as int)),
        old(output)@.len() == input@.len(),
        input@.len() + block_size <= usize::MAX,
    ensures
        cblocks_wf(mask, input@, final(temp)@, block_size as int),
        final(temp)@.len() == old(temp)@.len(),
        forall|k: int| 0 <= k < old(temp)@.len() && k != b ==> final(temp)@[k] == old(temp)@[k],
        final(temp)@[b as int].state is PrefixAvailable,
        final(output)@.len() == old(output)@.len(),
        cblock_output_ok(mask, input@, final(output)@, b as int, block_size as int),
        forall|p: int|
            0 <= p < old(output)@.len() && !(kept_before(
                mask,
                input@,
                block_start(b as int, block_size as int),
            ) <= p < kept_before(
                mask,
                input@,
                block_end(b as int, block_size as int, input@.len() as int),
            )) ==> final(output)@[p] == old(output)@[p],
{
    let ghost bs = block_size as int;
    let ghost len = input@.len() as int;
    proof {
        lemma_block_in_range(len, bs, b as int);
        lemma_block_counts(mask, input@, bs, b as int);
    }
    let start = b * block_size;
    let end = if start + block_size <= input.len() {
        start + block_size
    } else {
        input.len()
    };
    let after = compact_range(mask, input, start, end, output, incoming);
    proof {
        lemma_matching_split(mask, input@, 0, start as int, end as int);
        lemma_range_is_prefix(mask, input@, 0, end as int, len);
        assert(input@.subrange(0, len) =~= input@);
        assert forall|p: int|
            kept_before(mask, input@, start as int) <= p < kept_before(
                mask,
                input@,
                end as int,
            ) implies #[trigger] output@[p] == matching(mask, input@)[p] by {
            let j = p - incoming;
            assert(output@[incoming + j] == matching(
                mask,
                input@.subrange(start as int, end as int),
            )[j]);
            assert(matching(mask, input@.subrange(0, end as int))[incoming + j] == matching(
                mask,
                input@.subrange(start as int, end as int),
            )[j]);
        }
    }
    let record = BlockInfo {
        state: BlockState::PrefixAvailable,
        aggregate: temp[b].aggregate,
        prefix: after as u64,
    };
    temp.set(b, record);
}

/// The first half of the lookback path: block `b` counts its own kept
/// elements and publishes the count as its aggregate.
pub fn cblock_aggregate(
    mask: u64,
    input: &Vec<u64>,
    block_size: usize,
    b: usize,
    temp: &mut Vec<BlockInfo>,
)
    requires
        cblocks_wf(mask, input@, old(temp)@, block_size as int),
        b < old(temp)@.len(),
        old(temp)@[b as int].state is Initialized,
        input@.len() + block_size <= usize::MAX,
    ensures
        cblocks_wf(mask, input@, final(temp)@, block_size as int),
        final(temp)@.len() == old(temp)@.len(),
        forall|k: int| 0 <= k < old(temp)@.len() && k != b ==> final(temp)@[k] == old(temp)@[k],
        final(temp)@[b as int].state is AggregateAvailable,
{
    proof {
        lemma_block_in_range(input@.len() as int, block_size as int, b as int);
    }
    let start = b * block_size;
    let end = if start + block_size <= input.len() {
        start + block_size
    } else {
        input.len()
    };
    let local = count_range(mask, input, start, end);
    let record = BlockInfo {
        state: BlockState::AggregateAvailable,
        aggregate: local as u64,
        prefix: temp[b].prefix,
    };
    temp.set(b, record);
}

/// The second half of the lookback path: block `b`, its own count
/// published, walks backward adding predecessor counts until it meets a
/// published prefix; the resolved count is its output offset, and it
/// compacts its kept elements into place.
pub fn cblock_lookback(
    mask: u64,
    input: &Vec<u64>,
    block_size: usize,
    b: usize,
    temp: &mut Vec<BlockInfo>,
    output: &mut Vec<u64>,
)
    requires
        cblocks_wf(mask, input@, old(temp)@, block_size as int),
        1 <= b < old(temp)@.len(),
        old(temp)@[b as int].state is AggregateAvailable,
        lookback_ready(old(temp)@, b as int),
        old(output)@.len() == input@.len(),
        input@.len() + block_size <= usize::MAX,
    ensures
        cblocks_wf(mask, input@, final(temp)@, block_size as int),
        final(temp)@.len() == old(temp)@.len(),
        forall|k: int| 0 <= k < old(temp)@.len() && k != b ==> final(temp)@[k] == old(temp)@[k],
        final(temp)@[b as int].state is PrefixAvailable,
        final(output)@.len() == old(output)@.len(),
        cblock_output_ok(mask, input@, final(output)@, b as int, block_size as int),
        forall|p: int|
            0 <= p < old(output)@.len() && !(kept_before(
                mask,
                input@,
                block_start(b as int, block_size as int),
            ) <= p < kept_before(
                mask,
                input@,
                block_end(b as int, block_size as int, input@.len() as int),
            )) ==> final(output)@[p] == old(output)@[p],
{
    let ghost bs = block_size as int;
    let ghost len = input@.len() as int;
    proof {
        lemma_block_in_range(len, bs, b as int);
    }
    let mut p = b - 1;
    let mut offset: u64 = 0;
    proof {
        assert(input@.subrange(block_start(b as int, bs), block_start(b as int, bs))
            =~= Seq::<u64>::empty());
    }
    loop
        invariant_except_break
            0 <= p < b < temp@.len(),
            cblocks_wf(mask, input@, temp@, bs),
            bs == block_size,
            len == input@.len(),
            b < num_blocks(len, bs),
            temp@[b as int].state is AggregateAvailable,
            lookback_ready(temp@, b as int),
            len + bs <= usize::MAX,
            offset == count_matching(
                mask,
                input@.subrange(block_start(p + 1, bs), block_start(b as int, bs)),
            ),
            forall|k: int| p < k < b ==> (#[trigger] temp@[k].state) is AggregateAvailable,
        ensures
            cblocks_wf(mask, input@, temp@, bs),
            bs == block_size,
            len == input@.len(),
            temp@ == old(temp)@,
            temp@[b as int].state is AggregateAvailable,
            offset == kept_before(mask, input@, block_start(b as int, bs)),
        decreases p,
    {
        proof {
            lemma_block_in_range(len, bs, p as int);
            lemma_block_in_range(len, bs, b as int);
            lemma_start_monotonic(p + 1, b as int, bs);
            lemma_count_matching_le_len(
                mask,
                input@.subrange(block_start(p + 1, bs), block_start(b as int, bs)),
            );
        }
        match temp[p].state {
            BlockState::PrefixAvailable => {
                proof {
                    lemma_matching_split(
                        mask,
                        input@,
                        0,
                        block_start(p + 1, bs),
                        block_start(b as int, bs),
                    );
                    assert(block_end(p as int, bs, len) == block_start(p + 1, bs));
                    lemma_count_matching_le_len(mask, input@.subrange(0, block_start(p + 1, bs)));
                    assert(temp@[p as int].prefix + offset <= block_start(b as int, bs));
                }
                offset = temp[p].prefix + offset;
                break ;
            },
            BlockState::AggregateAvailable => {
                proof {
                    let j = choose|j: int|
                        0 <= j < b && (#[trigger] temp@[j].state) is PrefixAvailable && (forall|
                            k: int,
                        | j < k < b ==> !((#[trigger] temp@[k].state) is Initialized));
                    assert(j < p);
                    lemma_start_monotonic(p as int, p + 1, bs);
                    lemma_matching_split(
                        mask,
                        input@,
                        block_start(p as int, bs),
                        block_start(p + 1, bs),
                        block_start(b as int, bs),
                    );
                    assert(block_end(p as int, bs, len) == block_start(p + 1, bs));
                    lemma_count_matching_le_len(
                        mask,
                        input@.subrange(block_start(p as int, bs), block_start(b as int, bs)),
                    );
                    lemma_count_matching_le_len(
                        mask,
                        input@.subrange(block_start(p as int, bs), block_start(p + 1, bs)),
                    );
                    assert(temp@[p as int].aggregate + offset <= block_start(b as int, bs));
                }
                offset = temp[p].aggregate + offset;
                p = p - 1;
            },
            BlockState::Initialized => {
                proof {
                    let j = choose|j: int|
                        0 <= j < b && (#[trigger] temp@[j].state) is PrefixAvailable && (forall|
                            k: int,
                        | j < k < b ==> !((#[trigger] temp@[k].state) is Initialized));
                    assert(j <= p);
                    assert(false);
                }
            },
        }
    }
    proof {
        lemma_block_counts(mask, input@, bs, b as int);
        broadcast use vstd::std_specs::vec::axiom_spec_len;

        assert(vstd::std_specs::vec::spec_vec_len(input) == input@.len());
        assert(input@.len() <= usize::MAX);
    }
    let start = b * block_size;
    let end = if start + block_size <= input.len() {
        start + block_size
    } else {
        input.len()
    };
    let incoming = offset as usize;
    let after = compact_range(mask, input, start, end, output, incoming);
    proof {
        lemma_matching_split(mask, input@, 0, start as int, end as int);
        lemma_range_is_prefix(mask, input@, 0, end as int, len);
        assert(input@.subrange(0, len) =~= input@);
        assert forall|q: int|
            kept_before(mask, input@, start as int) <= q < kept_before(
                mask,
                input@,
                end as int,
            ) implies #[trigger] output@[q] == matching(mask, input@)[q] by {
            let j = q - incoming;
            assert(output@[incoming + j] == matching(
                mask,
                input@.subrange(start as int, end as int),
            )[j]);
            assert(matching(mask, input@.subrange(0, end as int))[incoming + j] == matching(
                mask,
                input@.subrange(start as int, end as int),
            )[j]);
        }
    }
    let record = BlockInfo {
        state: BlockState::PrefixAvailable,
        aggregate: temp[b].aggregate,
        prefix: after as u64,
    };
    temp.set(b, record);
}

/// Position `p` of the compacted output falls in the slice that block `k`
/// is responsible for.
pub open spec fn in_block_slice(mask: u64, input: Seq<u64>, bs: int, k: int, p: int) -> bool {
    kept_before(mask, input, block_start(k, bs)) <= p < kept_before(
        mask,
        input,
        block_end(k, bs, input.len() as int),
    )
}

/// Every position below the kept count at a block's end falls in the
/// slice of that block or of one before it: the slices tile the compacted
/// output without gap.
proof fn lemma_slices_cover(mask: u64, input: Seq<u64>, bs: int, b: int, p: int)
    requires
        bs >= 1,
        0 <= b < num_blocks(input.len() as int, bs),
        0 <= p < kept_before(mask, input, block_end(b, bs, input.len() as int)),
    ensures
        exists|k: int| 0 <= k <= b && #[trigger] in_block_slice(mask, input, bs, k, p),
    decreases b,
{
    let len = input.len() as int;
    lemma_block_in_range(len, bs, b);
    if p >= kept_before(mask, input, block_start(b, bs)) {
        assert(in_block_slice(mask, input, bs, b, p));
    } else {
        assert(b >= 1) by {
            if b == 0 {
                assert(input.subrange(0, 0) =~= Seq::<u64>::empty());
            }
        }
        lemma_block_in_range(len, bs, b - 1);
        assert(block_end(b - 1, bs, len) == block_start(b, bs));
        lemma_slices_cover(mask, input, bs, b - 1, p);
        let k = choose|k: int| 0 <= k <= b - 1 && #[trigger] in_block_slice(mask, input, bs, k, p);
        assert(in_block_slice(mask, input, bs, k, p));
    }
}

/// Runs the steps of `schedule` in order, skipping every step whose
/// precondition does not hold at its turn, and returns the compacted
/// array exactly when the schedule completes every block — the guards are
/// those of the scan, so [`schedule_completes`] decides completion here
/// too. However the scheduler hands the blocks to threads, the kept
/// elements stand densely at the front of the output, in their input
/// order.
pub fn chained_compact_schedule(
    mask: u64,
    input: &Vec<u64>,
    block_size: usize,
    schedule: &Vec<ScanStep>,
) -> (r: Option<Vec<u64>>)
    requires
        block_size >= 1,
        input@.len() + block_size <= usize::MAX,
    ensures
        r is Some <==> schedule_completes(input@.len() as int, block_size as int, schedule@),
        r is Some ==> r->0@.len() == input@.len() && (forall|p: int|
            0 <= p < count_matching(mask, input@) ==> r->0@[p] == matching(mask, input@)[p]),
{
    let ghost bs = block_size as int;
    let ghost len = input@.len() as int;
    let nb = (input.len() + block_size - 1) / block_size;
    let mut temp: Vec<BlockInfo> = Vec::new();
    let mut done: Vec<bool> = Vec::new();
    let mut output: Vec<u64> = Vec::new();
    let mut i: usize = 0;
    while i < nb
        invariant
            i <= nb,
            temp@.len() == i,
            done@.len() == i,
            forall|b: int| 0 <= b < i ==> (#[trigger] temp@[b]).state is Initialized,
            forall|b: int| 0 <= b < i ==> !(#[trigger] done@[b]),
        decreases nb - i,
    {
        temp.push(BlockInfo { state: BlockState::Initialized, aggregate: 0, prefix: 0 });
        done.push(false);
        i = i + 1;
    }
    let mut j: usize = 0;
    while j < input.len()
        invariant
            j <= input@.len(),
            output@.len() == j,
        decreases input@.len() - j,
    {
        output.push(0);
        j = j + 1;
    }
    proof {
        assert(schedule@.subrange(0, 0) =~= Seq::<ScanStep>::empty());
        assert(states_of(temp@) =~= initial_states(nb as int));
    }
    let mut s: usize = 0;
    while s < schedule.len()
        invariant
            bs == block_size,
            len == input@.len(),
            nb == num_blocks(len, bs),
            len + bs <= usize::MAX,
            cblocks_wf(mask, input@, temp@, bs),
            temp@.len() == nb,
            done@.len() == nb,
            output@.len() == len,
            s <= schedule@.len(),
            states_of(temp@) == protocol_run(
                initial_states(nb as int),
                schedule@.subrange(0, s as int),
            ),
            forall|b: int|
                0 <= b < nb && #[trigger] done@[b] ==> temp@[b].state is PrefixAvailable
                    && cblock_output_ok(mask, input@, output@, b, bs),
            forall|b: int|
                0 <= b < nb && (#[trigger] temp@[b]).state is PrefixAvailable ==> done@[b],
        decreases schedule.len() - s,
    {
        let ghost pre_states = states_of(temp@);
        let ghost step = schedule@[s as int];
        match schedule[s] {
            ScanStep::Fast(b) => {
                if b < nb && matches!(temp[b].state, BlockState::Initialized) {
                    if b == 0 {
                        proof {
                            assert(input@.subrange(0, 0) =~= Seq::<u64>::empty());
                        }
                        let ghost out_before = output@;
                        cblock_direct(mask, input, block_size, b, 0, &mut temp, &mut output);
                        done.set(b, true);
                        proof {
                            assert forall|k: int|
                                0 <= k < nb && #[trigger] done@[k] && k != b implies cblock_output_ok(
                                mask,
                                input@,
                                output@,
                                k,
                                bs,
                            ) by {
                                lemma_done_preserved(
                                    mask,
                                    input@,
                                    bs,
                                    out_before,
                                    output@,
                                    b as int,
                                    k,
                                );
                            }
                        }
                    } else if matches!(temp[b - 1].state, BlockState::PrefixAvailable) {
                        proof {
                            lemma_block_in_range(len, bs, b - 1);
                            lemma_block_counts(mask, input@, bs, b - 1);
                            broadcast use vstd::std_specs::vec::axiom_spec_len;

                            assert(vstd::std_specs::vec::spec_vec_len(input) == input@.len());
                        }
                        let incoming = temp[b - 1].prefix as usize;
                        let ghost out_before = output@;
                        cblock_direct(mask, input, block_size, b, incoming, &mut temp, &mut output);
                        done.set(b, true);
                        proof {
                            assert forall|k: int|
                                0 <= k < nb && #[trigger] done@[k] && k != b implies cblock_output_ok(
                                mask,
                                input@,
                                output@,
                                k,
                                bs,
                            ) by {
                                lemma_done_preserved(
                                    mask,
                                    input@,
                                    bs,
                                    out_before,
                                    output@,
                                    b as int,
                                    k,
                                );
                            }
                        }
                    }
                }
            },
            ScanStep::Aggregate(b) => {
                if b < nb && matches!(temp[b].state, BlockState::Initialized) {
                    cblock_aggregate(mask, input, block_size, b, &mut temp);
                }
            },
            ScanStep::Lookback(b) => {
                if 1 <= b && b < nb && matches!(temp[b].state, BlockState::AggregateAvailable) {
                    proof {
                        lemma_lookback_ready_states(temp@, b as int);
                    }
                    if can_look_back(&temp, b) {
                        let ghost out_before = output@;
                        cblock_lookback(mask, input, block_size, b, &mut temp, &mut output);
                        done.set(b, true);
                        proof {
                            assert forall|k: int|
                                0 <= k < nb && #[trigger] done@[k] && k != b implies cblock_output_ok(
                                mask,
                                input@,
                                output@,
                                k,
                                bs,
                            ) by {
                                lemma_done_preserved(
                                    mask,
                                    input@,
                                    bs,
                                    out_before,
                                    output@,
                                    b as int,
                                    k,
                                );
                            }
                        }
                    }
                }
            },
        }
        proof {
            assert(schedule@.subrange(0, s + 1) =~= schedule@.subrange(0, s as int).push(step));
            lemma_protocol_run_snoc(
                initial_states(nb as int),
                schedule@.subrange(0, s as int),
                step,
            );
            assert(states_of(temp@) =~= protocol_step(pre_states, step));
        }
        s = s + 1;
    }
    let mut all_done = true;
    let mut b: usize = 0;
    while b < nb
        invariant
            b <= nb,
            done@.len() == nb,
            all_done == (forall|k: int| 0 <= k < b ==> #[trigger] done@[k]),
        decreases nb - b,
    {
        if !done[b] {
            all_done = false;
        }
        b = b + 1;
    }
    proof {
        assert(schedule@.subrange(0, schedule@.len() as int) =~= schedule@);
    }
    if all_done {
        proof {
            assert(input@.subrange(0, len) =~= input@);
            assert forall|p: int| 0 <= p < count_matching(mask, input@) implies #[trigger] output@[p]
                == matching(mask, input@)[p] by {
                lemma_count_matching_le_len(mask, input@);
                crate::lookback::lemma_index_block(len, bs, 0);
                lemma_block_in_range(len, bs, nb - 1);
                assert(block_end(nb - 1, bs, len) == len);
                lemma_slices_cover(mask, input@, bs, nb - 1, p);
                let k = choose|k: int|
                    0 <= k <= nb - 1 && #[trigger] in_block_slice(mask, input@, bs, k, p);
                assert(done@[k]);
                assert(cblock_output_ok(mask, input@, output@, k, bs));
            }
            assert forall|k: int|
                0 <= k < num_blocks(len, bs) implies (#[trigger] protocol_run(
                initial_states(num_blocks(len, bs)),
                schedule@,
            )[k]) is PrefixAvailable by {
                assert(done@[k]);
                assert(states_of(temp@)[k] == temp@[k].state);
            }
            assert(schedule_completes(len, bs, schedule@));
        }
        Some(output)
    } else {
        proof {
            let bad = choose|k: int| 0 <= k < nb && !(#[trigger] done@[k]);
            assert(!(temp@[bad].state is PrefixAvailable));
            assert(states_of(temp@)[bad] == temp@[bad].state);
            assert(!(protocol_run(initial_states(nb as int), schedule@)[bad] is PrefixAvailable));
            assert(!schedule_completes(len, bs, schedule@));
        }
        None
    }
}

} // verus!
