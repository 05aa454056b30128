//! Chained scan with decoupled lookback.
//!
//! The scheduler hands the blocks of an array to threads in an arbitrary
//! order, yet the scan must equal a strict left-to-right prefix fold. Each
//! block owns a record that advances Initialized -> AggregateAvailable ->
//! PrefixAvailable and never moves back. A block whose left neighbour
//! already holds a prefix is scanned directly (the fast path); any other
//! block first publishes its own aggregate and then walks backward over its
//! predecessors, adding their aggregates until it meets a published prefix
//! (the lookback path).
//!
//! The functions here are the per-block steps of that protocol, each with
//! the exact state it may run in, plus a driver that runs the steps of an
//! arbitrary schedule and is proved to produce the sequential prefix sums
//! whenever the schedule covers every block.

use crate::scan::{fold_range, lemma_wsum_split, scan_range, wprefixes, wsum};
use vstd::arithmetic::div_mod::lemma_fundamental_div_mod;
use vstd::prelude::*;

verus! {

/// Number of array elements covered by one block record.
pub const BLOCK_SIZE: usize = 1024 * 4;

/// The forward-only state of one block's record.
#[derive(Clone, Copy, PartialEq, Eq, Structural)]
pub enum BlockState {
    Initialized,
    AggregateAvailable,
    PrefixAvailable,
}

/// The shared record of one block: its state, its local aggregate (the
/// block's own sum), and its prefix (the sum of the array up to and
/// including the block).
#[derive(Clone, Copy)]
pub struct BlockInfo {
    pub state: BlockState,
    pub aggregate: u64,
    pub prefix: u64,
}

/// How many blocks of size `bs` cover `len` elements.
pub open spec fn num_blocks(len: int, bs: int) -> int {
    (len + bs - 1) / bs
}

/// First array index of block `b`.
pub open spec fn block_start(b: int, bs: int) -> int {
    b * bs
}

/// One past the last array index of block `b`.
pub open spec fn block_end(b: int, bs: int, len: int) -> int {
    if b * bs + bs <= len {
        b * bs + bs
    } else {
        len
    }
}

/// Every block index below `num_blocks` covers a non-empty index range,
/// blocks tile the array without gap, and the last block ends at the array
/// end.
pub proof fn lemma_block_in_range(len: int, bs: int, b: int)
    requires
        bs >= 1,
        0 <= b < num_blocks(len, bs),
    ensures
        0 <= block_start(b, bs) < len,
        block_start(b, bs) < block_end(b, bs, len) <= len,
        b + 1 < num_blocks(len, bs) ==> block_end(b, bs, len) == block_start(b + 1, bs),
        b + 1 == num_blocks(len, bs) ==> block_end(b, bs, len) == len,
{
    let d = num_blocks(len, bs);
    lemma_fundamental_div_mod(len + bs - 1, bs);
    assert(bs * d <= len + bs - 1 < bs * d + bs) by (nonlinear_arith)
        requires
            bs >= 1,
            d == (len + bs - 1) / bs,
            len + bs - 1 == bs * d + (len + bs - 1) % bs,
            0 <= (len + bs - 1) % bs < bs,
    ;
    assert(b * bs < len && (b + 1 < d ==> b * bs + bs < len) && (b + 1 == d ==> len <= b * bs + bs)
        && 0 <= b * bs && (b + 1) * bs == b * bs + bs) by (nonlinear_arith)
        requires
            bs >= 1,
            0 <= b < d,
            bs * d <= len + bs - 1 < bs * d + bs,
    ;
}

/// Block starts grow with the block index.
pub proof fn lemma_start_monotonic(a: int, b: int, bs: int)
    by (nonlinear_arith)
    requires
        bs >= 1,
        0 <= a <= b,
    ensures
        0 <= block_start(a, bs) <= block_start(b, bs),
{
}

/// Every array index lies in exactly one block, namely index divided by the
/// block size.
pub proof fn lemma_index_block(len: int, bs: int, i: int)
    requires
        bs >= 1,
        0 <= i < len,
    ensures
        0 <= i / bs < num_blocks(len, bs),
        block_start(i / bs, bs) <= i < block_end(i / bs, bs, len),
{
    let d = num_blocks(len, bs);
    let b = i / bs;
    lemma_fundamental_div_mod(i, bs);
    lemma_fundamental_div_mod(len + bs - 1, bs);
    assert(bs * b <= i < bs * b + bs) by (nonlinear_arith)
        requires
            bs >= 1,
            b == i / bs,
            i == bs * b + i % bs,
            0 <= i % bs < bs,
    ;
    assert(0 <= b && b < d && b * bs <= i && i < block_end(b, bs, len)) by (nonlinear_arith)
        requires
            bs >= 1,
            0 <= i < len,
            bs * b <= i < bs * b + bs,
            len + bs - 1 == bs * d + (len + bs - 1) % bs,
            0 <= (len + bs - 1) % bs < bs,
            block_end(b, bs, len) == if b * bs + bs <= len {
                b * bs + bs
            } else {
                len
            },
    ;
}

/// What a block's record is allowed to say: a published aggregate is the
/// block's own wrapping sum, and a published prefix is the wrapping sum of
/// the whole array up to the block's end.
pub open spec fn block_ok(input: Seq<u64>, info: BlockInfo, b: int, bs: int) -> bool {
    &&& (info.state is AggregateAvailable ==> info.aggregate == wsum(
        input.subrange(block_start(b, bs), block_end(b, bs, input.len() as int)),
    ))
    &&& (info.state is PrefixAvailable ==> info.prefix == wsum(
        input.subrange(0, block_end(b, bs, input.len() as int)),
    ))
}

/// The records as a whole never lie about the input.
pub open spec fn blocks_wf(input: Seq<u64>, temp: Seq<BlockInfo>, bs: int) -> bool {
    &&& bs >= 1
    &&& temp.len() == num_blocks(input.len() as int, bs)
    &&& forall|b: int| 0 <= b < temp.len() ==> block_ok(input, #[trigger] temp[b], b, bs)
}

/// Block `b` of `output` holds the sequential prefix sums of the input.
pub open spec fn block_output_ok(input: Seq<u64>, output: Seq<u64>, b: int, bs: int) -> bool {
    forall|i: int|
        block_start(b, bs) <= i < block_end(b, bs, input.len() as int) ==> #[trigger] output[i]
            == wprefixes(0, input)[i]
}

/// Fresh records for an array of `size` elements split into blocks of
/// [`BLOCK_SIZE`], all in the Initialized state.
pub fn create_temp(size: usize) -> (r: Vec<BlockInfo>)
    requires
        size + BLOCK_SIZE <= usize::MAX,
    ensures
        r@.len() == num_blocks(size as int, BLOCK_SIZE as int),
        forall|b: int|
            0 <= b < r@.len() ==> (#[trigger] r@[b]).state is Initialized && r@[b].aggregate == 0
                && r@[b].prefix == 0,
{
    let count = (size + BLOCK_SIZE - 1) / BLOCK_SIZE;
    let mut r: Vec<BlockInfo> = Vec::new();
    let mut i: usize = 0;
    while i < count
        invariant
            i <= count,
            r@.len() == i,
            forall|b: int|
                0 <= b < i ==> (#[trigger] r@[b]).state is Initialized && r@[b].aggregate == 0
                    && r@[b].prefix == 0,
        decreases count - i,
    {
        r.push(BlockInfo { state: BlockState::Initialized, aggregate: 0, prefix: 0 });
        i = i + 1;
    }
    r
}

/// Returns every record to the Initialized state, so that the same records
/// can serve a new run over the same array.
pub fn reset(temp: &mut Vec<BlockInfo>)
    ensures
        final(temp)@.len() == old(temp)@.len(),
        forall|b: int|
            0 <= b < final(temp)@.len() ==> #[trigger] final(temp)@[b] == (BlockInfo {
                state: BlockState::Initialized,
                aggregate: 0,
                prefix: 0,
            }),
{
    let n = temp.len();
    let mut i: usize = 0;
    while i < n
        invariant
            i <= n,
            temp@.len() == n,
            forall|b: int|
                0 <= b < i ==> #[trigger] temp@[b] == (BlockInfo {
                    state: BlockState::Initialized,
                    aggregate: 0,
                    prefix: 0,
                }),
        decreases n - i,
    {
        temp.set(i, BlockInfo { state: BlockState::Initialized, aggregate: 0, prefix: 0 });
        i = i + 1;
    }
}

/// The fast path: block `b` is scanned directly with the incoming prefix
/// of everything before it, and publishes its prefix in one step.
pub fn block_scan_direct(
    input: &Vec<u64>,
    block_size: usize,
    b: usize,
    incoming: u64,
    temp: &mut Vec<BlockInfo>,
    output: &mut Vec<u64>,
)
    requires
        blocks_wf(input@, old(temp)@, block_size as int),
        b < old(temp)@.len(),
        incoming == wsum(input@.subrange(0, block_start(b as int, block_size as int))),
        old(output)@.len() == input@.len(),
        input@.len() + block_size <= usize::MAX,
    ensures
        blocks_wf(input@, final(temp)@, block_size as int),
        final(temp)@.len() == old(temp)@.len(),
        forall|k: int| 0 <= k < old(temp)@.len() && k != b ==> final(temp)@[k] == old(temp)@[k],
        final(temp)@[b as int].state is PrefixAvailable,
        final(output)@.len() == old(output)@.len(),
        block_output_ok(input@, final(output)@, b as int, block_size as int),
        forall|i: int|
            0 <= i < input@.len() && !(block_start(b as int, block_size as int) <= i < block_end(
                b as int,
                block_size as int,
                input@.len() as int,
            )) ==> final(output)@[i] == old(output)@[i],
{
    proof {
        lemma_block_in_range(input@.len() as int, block_size as int, b as int);
    }
    let start = b * block_size;
    let end = if start + block_size <= input.len() {
        start + block_size
    } else {
        input.len()
    };
    let local = scan_range(input, start, end, incoming, output);
    proof {
        lemma_wsum_split(input@, 0, start as int, end as int);
        assert forall|i: int| start <= i < end implies #[trigger] output@[i] == wprefixes(
            0,
            input@,
        )[i] by {
            lemma_wsum_split(input@, 0, start as int, i + 1);
        }
    }
    let record = BlockInfo { state: BlockState::PrefixAvailable, aggregate: temp[b].aggregate, prefix: local };
    temp.set(b, record);
}

/// The first half of the lookback path: block `b` folds itself with
/// accumulator zero and publishes the result as its aggregate.
pub fn block_publish_aggregate(
    input: &Vec<u64>,
    block_size: usize,
    b: usize,
    temp: &mut Vec<BlockInfo>,
)
    requires
        blocks_wf(input@, old(temp)@, block_size as int),
        b < old(temp)@.len(),
        old(temp)@[b as int].state is Initialized,
        input@.len() + block_size <= usize::MAX,
    ensures
        blocks_wf(input@, final(temp)@, block_size as int),
        final(temp)@.len() == old(temp)@.len(),
        forall|k: int| 0 <= k < old(temp)@.len() && k != b ==> final(temp)@[k] == old(temp)@[k],
        final(temp)@[b as int].state is AggregateAvailable,
{
    proof {
        lemma_block_in_range(input@.len() as int, block_size as int, b as int);
    }
    let start = b * block_size;
    let end = if start + block_size <= input.len() {
        start + block_size
    } else {
        input.len()
    };
    let local = fold_range(input, start, end);
    let record = BlockInfo { state: BlockState::AggregateAvailable, aggregate: local, prefix: temp[b].prefix };
    temp.set(b, record);
}

/// The lookback walk from block `b` can terminate: somewhere below `b`
/// there is a published prefix, and no block between it and `b` is still
/// Initialized.
pub open spec fn lookback_ready(temp: Seq<BlockInfo>, b: int) -> bool {
    exists|j: int|
        0 <= j < b && (#[trigger] temp[j].state) is PrefixAvailable && (forall|k: int|
            j < k < b ==> !((#[trigger] temp[k].state) is Initialized))
}

/// Decides whether the lookback walk from block `b` would terminate now.
pub fn can_look_back(temp: &Vec<BlockInfo>, b: usize) -> (r: bool)
    requires
        1 <= b < temp@.len(),
    ensures
        r == lookback_ready(temp@, b as int),
{
    let mut p = b - 1;
    loop
        invariant_except_break
            0 <= p < b < temp@.len(),
            forall|k: int| p < k < b ==> (#[trigger] temp@[k].state) is AggregateAvailable,
        ensures
            (lookback_ready(temp@, b as int) <==> temp@[p as int].state is PrefixAvailable),
            p < b,
        decreases p,
    {
        match temp[p].state {
            BlockState::PrefixAvailable => {
                break ;
            },
            BlockState::Initialized => {
                proof {
                    assert forall|j: int|
                        0 <= j < b && (#[trigger] temp@[j].state) is PrefixAvailable implies !(
                    forall|k: int| j < k < b ==> !((#[trigger] temp@[k].state) is Initialized)) by {
                        assert(j < p || j > p);
                        assert(temp@[p as int].state is Initialized);
                    }
                }
                break ;
            },
            BlockState::AggregateAvailable => {
                if p == 0 {
                    proof {
                        assert forall|j: int|
                            0 <= j < b implies !((#[trigger] temp@[j].state) is PrefixAvailable)
                        by {}
                    }
                    break ;
                }
                p = p - 1;
            },
        }
    }
    match temp[p].state {
        BlockState::PrefixAvailable => true,
        _ => false,
    }
}

/// The second half of the lookback path: block `b`, having published its
/// aggregate, walks backward adding predecessor aggregates until it meets a
/// published prefix, publishes its own prefix, and then scans its block
/// with the resolved incoming value.
pub fn block_lookback(
    input: &Vec<u64>,
    block_size: usize,
    b: usize,
    temp: &mut Vec<BlockInfo>,
    output: &mut Vec<u64>,
)
    requires
        blocks_wf(input@, old(temp)@, block_size as int),
        1 <= b < old(temp)@.len(),
        old(temp)@[b as int].state is AggregateAvailable,
        lookback_ready(old(temp)@, b as int),
        old(output)@.len() == input@.len(),
        input@.len() + block_size <= usize::MAX,
    ensures
        blocks_wf(input@, final(temp)@, block_size as int),
        final(temp)@.len() == old(temp)@.len(),
        forall|k: int| 0 <= k < old(temp)@.len() && k != b ==> final(temp)@[k] == old(temp)@[k],
        final(temp)@[b as int].state is PrefixAvailable,
        final(output)@.len() == old(output)@.len(),
        block_output_ok(input@, final(output)@, b as int, block_size as int),
        forall|i: int|
            0 <= i < input@.len() && !(block_start(b as int, block_size as int) <= i < block_end(
                b as int,
                block_size as int,
                input@.len() as int,
            )) ==> final(output)@[i] == old(output)@[i],
{
    let ghost bs = block_size as int;
    let ghost len = input@.len() as int;
    proof {
        lemma_block_in_range(len, bs, b as int);
    }
    let mut p = b - 1;
    let mut aggregate: u64 = 0;
    proof {
        assert(input@.subrange(block_start(b as int, bs), block_start(b as int, bs))
            =~= Seq::<u64>::empty());
    }
    loop
        invariant_except_break
            0 <= p < b < temp@.len(),
            blocks_wf(input@, temp@, bs),
            bs == block_size,
            len == input@.len(),
            b < num_blocks(len, bs),
            temp@[b as int].state is AggregateAvailable,
            lookback_ready(temp@, b as int),
            aggregate == wsum(input@.subrange(block_start(p + 1, bs), block_start(b as int, bs))),
            forall|k: int| p < k < b ==> (#[trigger] temp@[k].state) is AggregateAvailable,
        ensures
            blocks_wf(input@, temp@, bs),
            bs == block_size,
            len == input@.len(),
            temp@ == old(temp)@,
            temp@[b as int].state is AggregateAvailable,
            aggregate == wsum(input@.subrange(0, block_start(b as int, bs))),
        decreases p,
    {
        proof {
            lemma_block_in_range(len, bs, p as int);
            lemma_block_in_range(len, bs, b as int);
            lemma_start_monotonic(p + 1, b as int, bs);
        }
        match temp[p].state {
            BlockState::PrefixAvailable => {
                proof {
                    lemma_wsum_split(input@, 0, block_start(p + 1, bs), block_start(b as int, bs));
                    assert(block_end(p as int, bs, len) == block_start(p + 1, bs));
                }
                aggregate = temp[p].prefix.wrapping_add(aggregate);
                break ;
            },
            BlockState::AggregateAvailable => {
                proof {
                    // A published prefix lies strictly below p: every block in
                    // (p, b) is AggregateAvailable, so the witness of
                    // lookback_ready is at most p, and p itself has no prefix.
                    let j = choose|j: int|
                        0 <= j < b && (#[trigger] temp@[j].state) is PrefixAvailable && (forall|
                            k: int,
                        | j < k < b ==> !((#[trigger] temp@[k].state) is Initialized));
                    assert(j < p);
                    lemma_start_monotonic(p as int, p + 1, bs);
                    lemma_wsum_split(
                        input@,
                        block_start(p as int, bs),
                        block_start(p + 1, bs),
                        block_start(b as int, bs),
                    );
                    assert(block_end(p as int, bs, len) == block_start(p + 1, bs));
                }
                aggregate = temp[p].aggregate.wrapping_add(aggregate);
                p = p - 1;
            },
            BlockState::Initialized => {
                proof {
                    let j = choose|j: int|
                        0 <= j < b && (#[trigger] temp@[j].state) is PrefixAvailable && (forall|
                            k: int,
                        | j < k < b ==> !((#[trigger] temp@[k].state) is Initialized));
                    assert(j <= p);
                    assert(false);
                }
            },
        }
    }
    let start = b * block_size;
    let end = if start + block_size <= input.len() {
        start + block_size
    } else {
        input.len()
    };
    let own = temp[b].aggregate;
    let new_prefix = aggregate.wrapping_add(own);
    proof {
        lemma_wsum_split(input@, 0, start as int, end as int);
    }
    let record = BlockInfo { state: BlockState::PrefixAvailable, aggregate: own, prefix: new_prefix };
    temp.set(b, record);
    scan_range(input, start, end, aggregate, output);
    proof {
        assert forall|i: int| start <= i < end implies #[trigger] output@[i] == wprefixes(
            0,
            input@,
        )[i] by {
            lemma_wsum_split(input@, 0, start as int, i + 1);
        }
    }
}

/// One step of a run of the protocol, naming the block it works on. A
/// running thread takes the fast path for a block, or publishes a block's
/// aggregate and later resolves it by lookback.
#[derive(Clone, Copy)]
pub enum ScanStep {
    Fast(usize),
    Aggregate(usize),
    Lookback(usize),
}

/// The state vector of the block records.
pub open spec fn states_of(temp: Seq<BlockInfo>) -> Seq<BlockState> {
    temp.map_values(|info: BlockInfo| info.state)
}

/// The lookback-termination condition, read off the state vector alone.
pub open spec fn lookback_ready_states(states: Seq<BlockState>, b: int) -> bool {
    exists|j: int|
        0 <= j < b && (#[trigger] states[j]) is PrefixAvailable && (forall|k: int|
            j < k < b ==> !((#[trigger] states[k]) is Initialized))
}

/// Whether the lookback walk can terminate depends only on the states of
/// the records, not on the published values.
pub proof fn lemma_lookback_ready_states(temp: Seq<BlockInfo>, b: int)
    requires
        b <= temp.len(),
    ensures
        lookback_ready(temp, b) == lookback_ready_states(states_of(temp), b),
{
    if lookback_ready(temp, b) {
        let j = choose|j: int|
            0 <= j < b && (#[trigger] temp[j].state) is PrefixAvailable && (forall|k: int|
                j < k < b ==> !((#[trigger] temp[k].state) is Initialized));
        assert((states_of(temp)[j]) is PrefixAvailable);
        assert forall|k: int| j < k < b implies !((#[trigger] states_of(temp)[k])
            is Initialized) by {
            assert(states_of(temp)[k] == temp[k].state);
        }
        assert(lookback_ready_states(states_of(temp), b));
    }
    if lookback_ready_states(states_of(temp), b) {
        let j = choose|j: int|
            0 <= j < b && (#[trigger] states_of(temp)[j]) is PrefixAvailable && (forall|k: int|
                j < k < b ==> !((#[trigger] states_of(temp)[k]) is Initialized));
        assert((temp[j].state) is PrefixAvailable);
        assert forall|k: int| j < k < b implies !((#[trigger] temp[k].state) is Initialized) by {
            assert(states_of(temp)[k] == temp[k].state);
        }
        assert(lookback_ready(temp, b));
    }
}

/// One schedule step as it acts on the state vector: the step runs exactly
/// when its guard holds, and then advances its block's state; a step whose
/// guard fails changes nothing (the thread would spin or move on). The
/// guards mention states alone, so which steps run — and whether a
/// schedule completes — is decided by the states.
pub open spec fn protocol_step(states: Seq<BlockState>, step: ScanStep) -> Seq<BlockState> {
    match step {
        ScanStep::Fast(b) => if b < states.len() && states[b as int] is Initialized && (b == 0
            || states[b - 1] is PrefixAvailable) {
            states.update(b as int, BlockState::PrefixAvailable)
        } else {
            states
        },
        ScanStep::Aggregate(b) => if b < states.len() && states[b as int] is Initialized {
            states.update(b as int, BlockState::AggregateAvailable)
        } else {
            states
        },
        ScanStep::Lookback(b) => if 1 <= b && b < states.len() && states[b as int]
            is AggregateAvailable && lookback_ready_states(states, b as int) {
            states.update(b as int, BlockState::PrefixAvailable)
        } else {
            states
        },
    }
}

/// The state vector after a whole schedule has run from `states`.
pub open spec fn protocol_run(states: Seq<BlockState>, schedule: Seq<ScanStep>) -> Seq<BlockState>
    decreases schedule.len(),
{
    if schedule.len() == 0 {
        states
    } else {
        protocol_run(protocol_step(states, schedule[0]), schedule.drop_first())
    }
}

/// Every block starts a run in the Initialized state.
pub open spec fn initial_states(nb: int) -> Seq<BlockState> {
    Seq::new(
        if nb >= 0 {
            nb as nat
        } else {
            0
        },
        |i: int| BlockState::Initialized,
    )
}

/// Whether `schedule` completes every block of an array of `len` elements
/// under block size `bs`: after the whole schedule has run, every block
/// has published its prefix.
pub open spec fn schedule_completes(len: int, bs: int, schedule: Seq<ScanStep>) -> bool {
    forall|b: int|
        0 <= b < num_blocks(len, bs) ==> (#[trigger] protocol_run(
            initial_states(num_blocks(len, bs)),
            schedule,
        )[b]) is PrefixAvailable
}

/// Running a schedule extended by one step runs the schedule and then the
/// step.
pub proof fn lemma_protocol_run_snoc(
    states: Seq<BlockState>,
    schedule: Seq<ScanStep>,
    step: ScanStep,
)
    ensures
        protocol_run(states, schedule.push(step)) == protocol_step(
            protocol_run(states, schedule),
            step,
        ),
    decreases schedule.len(),
{
    if schedule.len() == 0 {
        assert(schedule.push(step)[0] == step);
        assert(schedule.push(step).drop_first() =~= Seq::<ScanStep>::empty());
        assert(protocol_run(states, schedule.push(step)) == protocol_run(
            protocol_step(states, step),
            Seq::<ScanStep>::empty(),
        ));
        assert(protocol_run(protocol_step(states, step), Seq::<ScanStep>::empty())
            == protocol_step(states, step));
        assert(protocol_run(states, schedule) == states);
    } else {
        assert(schedule.push(step)[0] == schedule[0]);
        assert(schedule.push(step).drop_first() =~= schedule.drop_first().push(step));
        lemma_protocol_run_snoc(protocol_step(states, schedule[0]), schedule.drop_first(), step);
    }
}

/// Runs the steps of `schedule` in order, skipping every step whose
/// precondition does not hold at its turn (in the running system such a
/// thread would spin or move on). Returns the scanned array exactly when
/// the schedule completes every block — [`schedule_completes`] decides
/// that from the schedule alone — and `None` otherwise.
///
/// Whatever the schedule — whatever order the scheduler hands blocks to
/// threads — a completed run equals the sequential left-to-right prefix
/// fold of the whole array.
pub fn chained_scan_schedule(input: &Vec<u64>, block_size: usize, schedule: &Vec<ScanStep>) -> (r:
    Option<Vec<u64>>)
    requires
        block_size >= 1,
        input@.len() + block_size <= usize::MAX,
    ensures
        r is Some <==> schedule_completes(input@.len() as int, block_size as int, schedule@),
        r is Some ==> r->0@ == wprefixes(0, input@),
{
    let ghost bs = block_size as int;
    let ghost len = input@.len() as int;
    let nb = (input.len() + block_size - 1) / block_size;
    let mut temp: Vec<BlockInfo> = Vec::new();
    let mut done: Vec<bool> = Vec::new();
    let mut output: Vec<u64> = Vec::new();
    let mut i: usize = 0;
    while i < nb
        invariant
            i <= nb,
            temp@.len() == i,
            done@.len() == i,
            forall|b: int| 0 <= b < i ==> (#[trigger] temp@[b]).state is Initialized,
            forall|b: int| 0 <= b < i ==> !(#[trigger] done@[b]),
        decreases nb - i,
    {
        temp.push(BlockInfo { state: BlockState::Initialized, aggregate: 0, prefix: 0 });
        done.push(false);
        i = i + 1;
    }
    let mut j: usize = 0;
    while j < input.len()
        invariant
            j <= input@.len(),
            output@.len() == j,
        decreases input@.len() - j,
    {
        output.push(0);
        j = j + 1;
    }
    proof {
        assert(schedule@.subrange(0, 0) =~= Seq::<ScanStep>::empty());
        assert(states_of(temp@) =~= initial_states(nb as int));
    }
    let mut s: usize = 0;
    while s < schedule.len()
        invariant
            bs == block_size,
            len == input@.len(),
            nb == num_blocks(len, bs),
            len + bs <= usize::MAX,
            blocks_wf(input@, temp@, bs),
            temp@.len() == nb,
            done@.len() == nb,
            output@.len() == len,
            s <= schedule@.len(),
            states_of(temp@) == protocol_run(
                initial_states(nb as int),
                schedule@.subrange(0, s as int),
            ),
            forall|b: int|
                0 <= b < nb && #[trigger] done@[b] ==> temp@[b].state is PrefixAvailable
                    && block_output_ok(input@, output@, b, bs),
            forall|b: int|
                0 <= b < nb && (#[trigger] temp@[b]).state is PrefixAvailable ==> done@[b],
        decreases schedule.len() - s,
    {
        let ghost pre_states = states_of(temp@);
        let ghost step = schedule@[s as int];
        match schedule[s] {
            ScanStep::Fast(b) => {
                if b < nb && matches!(temp[b].state, BlockState::Initialized) {
                    if b == 0 {
                        proof {
                            assert(input@.subrange(0, 0) =~= Seq::<u64>::empty());
                        }
                        block_scan_direct(input, block_size, b, 0, &mut temp, &mut output);
                        done.set(b, true);
                    } else if matches!(temp[b - 1].state, BlockState::PrefixAvailable) {
                        proof {
                            lemma_block_in_range(len, bs, b - 1);
                        }
                        let incoming = temp[b - 1].prefix;
                        block_scan_direct(input, block_size, b, incoming, &mut temp, &mut output);
                        done.set(b, true);
                    }
                }
            },
            ScanStep::Aggregate(b) => {
                if b < nb && matches!(temp[b].state, BlockState::Initialized) {
                    block_publish_aggregate(input, block_size, b, &mut temp);
                }
            },
            ScanStep::Lookback(b) => {
                if 1 <= b && b < nb && matches!(temp[b].state, BlockState::AggregateAvailable) {
                    proof {
                        lemma_lookback_ready_states(temp@, b as int);
                    }
                    if can_look_back(&temp, b) {
                        block_lookback(input, block_size, b, &mut temp, &mut output);
                        done.set(b, true);
                    }
                }
            },
        }
        proof {
            assert(schedule@.subrange(0, s + 1) =~= schedule@.subrange(0, s as int).push(step));
            lemma_protocol_run_snoc(
                initial_states(nb as int),
                schedule@.subrange(0, s as int),
                step,
            );
            assert(states_of(temp@) =~= protocol_step(pre_states, step));
        }
        s = s + 1;
    }
    let mut all_done = true;
    let mut b: usize = 0;
    while b < nb
        invariant
            b <= nb,
            done@.len() == nb,
            all_done == (forall|k: int| 0 <= k < b ==> #[trigger] done@[k]),
        decreases nb - b,
    {
        if !done[b] {
            all_done = false;
        }
        b = b + 1;
    }
    proof {
        assert(schedule@.subrange(0, schedule@.len() as int) =~= schedule@);
    }
    if all_done {
        proof {
            assert forall|k: int| 0 <= k < len implies #[trigger] output@[k] == wprefixes(
                0,
                input@,
            )[k] by {
                lemma_index_block(len, bs, k);
                assert(done@[k / bs]);
                assert(block_output_ok(input@, output@, k / bs, bs));
            }
            assert(output@ =~= wprefixes(0, input@));
            assert forall|k: int|
                0 <= k < num_blocks(len, bs) implies (#[trigger] protocol_run(
                initial_states(num_blocks(len, bs)),
                schedule@,
            )[k]) is PrefixAvailable by {
                assert(done@[k]);
                assert(states_of(temp@)[k] == temp@[k].state);
            }
            assert(schedule_completes(len, bs, schedule@));
        }
        Some(output)
    } else {
        proof {
            let bad = choose|k: int| 0 <= k < nb && !(#[trigger] done@[k]);
            assert(!(temp@[bad].state is PrefixAvailable));
            assert(states_of(temp@)[bad] == temp@[bad].state);
            assert(!(protocol_run(initial_states(nb as int), schedule@)[bad] is PrefixAvailable));
            assert(!schedule_completes(len, bs, schedule@));
        }
        None
    }
}

/// Scans the array by taking the fast path for every block in left-to-right
/// order, as a single thread does; the result is the sequential prefix
/// fold.
pub fn chained_scan_in_order(input: &Vec<u64>, block_size: usize) -> (r: Vec<u64>)
    requires
        block_size >= 1,
        input@.len() + block_size <= usize::MAX,
    ensures
        r@ == wprefixes(0, input@),
{
    let ghost bs = block_size as int;
    let ghost len = input@.len() as int;
    let nb = (input.len() + block_size - 1) / block_size;
    let mut temp: Vec<BlockInfo> = Vec::new();
    let mut output: Vec<u64> = Vec::new();
    let mut i: usize = 0;
    while i < nb
        invariant
            i <= nb,
            temp@.len() == i,
            forall|b: int| 0 <= b < i ==> (#[trigger] temp@[b]).state is Initialized,
        decreases nb - i,
    {
        temp.push(BlockInfo { state: BlockState::Initialized, aggregate: 0, prefix: 0 });
        i = i + 1;
    }
    let mut j: usize = 0;
    while j < input.len()
        invariant
            j <= input@.len(),
            output@.len() == j,
        decreases input@.len() - j,
    {
        output.push(0);
        j = j + 1;
    }
    let mut b: usize = 0;
    while b < nb
        invariant
            bs == block_size,
            len == input@.len(),
            nb == num_blocks(len, bs),
            len + bs <= usize::MAX,
            b <= nb,
            blocks_wf(input@, temp@, bs),
            temp@.len() == nb,
            output@.len() == len,
            forall|k: int|
                0 <= k < b ==> (#[trigger] temp@[k]).state is PrefixAvailable && block_output_ok(
                    input@,
                    output@,
                    k,
                    bs,
                ),
        decreases nb - b,
    {
        if b == 0 {
            proof {
                assert(input@.subrange(0, 0) =~= Seq::<u64>::empty());
                assert(wsum(Seq::<u64>::empty()) == 0);
                assert(block_start(0, bs) == 0) by (nonlinear_arith);
            }
            block_scan_direct(input, block_size, b, 0, &mut temp, &mut output);
        } else {
            proof {
                lemma_block_in_range(len, bs, b - 1);
            }
            let incoming = temp[b - 1].prefix;
            block_scan_direct(input, block_size, b, incoming, &mut temp, &mut output);
        }
        b = b + 1;
    }
    proof {
        assert forall|k: int| 0 <= k < len implies #[trigger] output@[k] == wprefixes(
            0,
            input@,
        )[k] by {
            lemma_index_block(len, bs, k);
            assert((temp@[k / bs]).state is PrefixAvailable);
            assert(block_output_ok(input@, output@, k / bs, bs));
        }
        assert(output@ =~= wprefixes(0, input@));
    }
    output
}

} // verus!
