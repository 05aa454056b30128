//! The work-assisting protocol around one data-parallel task.
//!
//! A data-parallel task is published in its owner's activity slot as a
//! tagged pointer: the pointer names the task, the tag counts the threads
//! that have signalled intent to join it. Joining threads claim chunks from
//! a shared cursor; the thread that claims the last chunk retires the slot,
//! folding the tag into the task's count of active threads; and the thread
//! whose departure drives that count to zero — and only that thread — runs
//! the task's finish callback and frees the task.
//!
//! [`TaskExecution`] holds the state the runtime keeps in atomics (the
//! chunk cursor, the active-thread counter, the activity slot) together
//! with bookkeeping the proofs speak about: how many threads entered and
//! left, which chunks were executed, and how often finish ran. Each
//! operation below is one thread's step of the protocol; any interleaving
//! of the operations is a possible run of the scheduler. The drivers at the
//! end run arbitrary such interleavings and establish the two central
//! guarantees: every chunk is executed exactly once, and finish runs
//! exactly once.

use crate::ptr::{AtomicTaggedPtr, TaggedPtr};
use vstd::multiset::Multiset;
use crate::task::Task;
use vstd::prelude::*;

verus! {

/// The model's stand-in for the address of the task object being tracked;
/// the activity slot holds it while the task is discoverable.
pub const TASK_HANDLE: u64 = 1;

/// More threads than this cannot join one task: the join count must fit
/// in the tag field of the activity slot.
pub const MAX_THREADS: u32 = 0xFFFF;

/// How a thread entered the task's loop — as the publishing owner or as an
/// assister — and whether it has already signalled exhaustion.
enum EmptySignalState {
    Main,
    Assist,
    DidSignal,
}

/// A single-use capability, held by each participating thread, to retire
/// the task from its activity slot once all chunks are claimed.
pub struct EmptySignal {
    state: EmptySignalState,
}

impl EmptySignal {
    /// Whether the signal has already been used.
    pub closed spec fn signalled(self) -> bool {
        self.state is DidSignal
    }
}

/// One thread currently participating in the task's chunked loop: the
/// chunk it has claimed but not yet executed, and its retirement signal.
pub struct Participant {
    chunk: u32,
    signal: EmptySignal,
}

impl Participant {
    /// The chunk this thread has claimed and will execute next (it may lie
    /// at or beyond the work size, in which case the thread is done).
    pub closed spec fn chunk(self) -> u32 {
        self.chunk
    }

    /// Whether this thread has already used its retirement signal.
    pub closed spec fn signalled(self) -> bool {
        self.signal.signalled()
    }

    /// Reads the claimed chunk.
    pub fn next_chunk(&self) -> (r: u32)
        ensures
            r == self.chunk(),
    {
        self.chunk
    }
}

/// The shared state of one data-parallel task while threads execute it.
pub struct TaskExecution {
    work_size: u32,
    work_index: u32,
    active_threads: i32,
    slot: AtomicTaggedPtr,
    reserved_joins: u32,
    started: u32,
    exited: u32,
    finish_count: u32,
    chunk_log: Vec<u32>,
}

impl TaskExecution {
    /// The task's chunk count.
    pub closed spec fn size(self) -> u32 {
        self.work_size
    }

    /// The shared chunk cursor: chunks below it have been handed out.
    pub closed spec fn cursor(self) -> u32 {
        self.work_index
    }

    /// The signed active-thread counter of the task object.
    pub closed spec fn active(self) -> int {
        self.active_threads as int
    }

    /// The address field of the activity slot.
    pub closed spec fn slot_addr(self) -> u64 {
        self.slot@.0
    }

    /// Whether the task is still discoverable through the activity slot.
    pub open spec fn published(self) -> bool {
        self.slot_addr() == TASK_HANDLE
    }

    /// The tag of the activity slot: joins not yet folded into `active`.
    pub closed spec fn slot_tag(self) -> int {
        self.slot@.1 as int
    }

    /// Threads that have signalled intent to join but not yet claimed a
    /// first chunk.
    pub closed spec fn reserved(self) -> int {
        self.reserved_joins as int
    }

    /// Threads that have entered the task: the owner plus every join.
    pub closed spec fn started(self) -> int {
        self.started as int
    }

    /// Threads that have left the task after their share of the loop.
    pub closed spec fn exited(self) -> int {
        self.exited as int
    }

    /// How many times the finish callback has run.
    pub closed spec fn finishes(self) -> int {
        self.finish_count as int
    }

    /// The chunks executed so far, in execution order.
    pub closed spec fn processed(self) -> Seq<u32> {
        self.chunk_log@
    }

    /// The counter bookkeeping the protocol maintains at every step.
    ///
    /// While the task is published no thread has left, no decrement has
    /// happened, and the slot tag counts every thread that entered. Once
    /// the slot is retired the tag has been folded into the active count,
    /// which from then on is exactly the threads still inside; finish has
    /// run exactly when the last one left.
    pub open spec fn wf(self) -> bool {
        &&& 1 <= self.started() < MAX_THREADS + 1
        &&& self.exited() + self.reserved() <= self.started()
        &&& self.published() ==> self.exited() == 0 && self.active() == 0 && self.slot_tag()
            == self.started() && self.finishes() == 0
        &&& !self.published() ==> self.active() == self.started() - self.exited()
        &&& !self.published() ==> self.finishes() == (if self.exited() == self.started() {
            1int
        } else {
            0int
        })
        &&& (self.slot_addr() == 0 || self.slot_addr() == TASK_HANDLE)
    }

    /// Reads the task's chunk count.
    pub fn work_size(&self) -> (r: u32)
        ensures
            r == self.size(),
    {
        self.work_size
    }

    /// Reads how many signalled joins have not claimed their first chunk.
    pub fn outstanding_reservations(&self) -> (r: u32)
        ensures
            r == self.reserved(),
    {
        self.reserved_joins
    }

    /// Hands the execution log out once the run is over: the chunks that
    /// were executed, in order, and the number of times finish ran.
    pub fn into_results(self) -> (r: (Vec<u32>, u32))
        ensures
            r.0@ == self.processed(),
            r.1 == self.finishes(),
    {
        (self.chunk_log, self.finish_count)
    }
}

/// Starts a task as the scheduler does when it has popped or stolen it.
///
/// A task without chunks — a single task, or a data-parallel task of work
/// size zero — is a pure continuation: its finish callback runs at once,
/// its work callback never runs, and no other thread can ever observe it.
/// A task with chunks is published in the owner's activity slot with tag 1
/// and the owner starts on chunk 0.
pub fn start_task(task: Task) -> (r: (TaskExecution, Option<Participant>))
    ensures
        r.0.wf(),
        r.0.size() == task.size(),
        r.0.processed() == Seq::<u32>::empty(),
        r.0.started() == 1,
        r.0.reserved() == 0,
        task.size() == 0 ==> r.1 is None && r.0.finishes() == 1 && r.0.exited() == 1
            && !r.0.published() && r.0.cursor() == 0,
        task.size() > 0 ==> r.1 is Some && r.0.finishes() == 0 && r.0.exited() == 0
            && r.0.published() && r.0.cursor() == 1 && (r.1->0).chunk() == 0 && !(
        r.1->0).signalled(),
{
    if task.work_size() == 0 {
        // The finish callback runs immediately; the work callback is never
        // invoked and the task is never published.
        let exec = TaskExecution {
            work_size: task.work_size(),
            work_index: 0,
            active_threads: 0,
            slot: AtomicTaggedPtr::new(TaggedPtr::new(0, 0)),
            reserved_joins: 0,
            started: 1,
            exited: 1,
            finish_count: 1,
            chunk_log: Vec::new(),
        };
        (exec, None)
    } else {
        // Publish the task with tag 1: the owner itself counts as one
        // joined thread. The cursor starts at 1 because the owner takes
        // chunk 0 without claiming it from the cursor.
        let exec = TaskExecution {
            work_size: task.work_size(),
            work_index: 1,
            active_threads: 0,
            slot: AtomicTaggedPtr::new(TaggedPtr::new(TASK_HANDLE, 1)),
            reserved_joins: 0,
            started: 1,
            exited: 0,
            finish_count: 0,
            chunk_log: Vec::new(),
        };
        let owner = Participant { chunk: 0, signal: EmptySignal { state: EmptySignalState::Main } };
        (exec, Some(owner))
    }
}

impl EmptySignal {
    /// Retires the task from its activity slot, exactly once per signal.
    ///
    /// The owner swaps the slot to null; an assister may only clear it by
    /// compare-and-swap, because the owner could have moved on to publish
    /// a newer task in the same slot. Whoever finds the slot still pointing
    /// at the task folds the slot's tag — the joins not yet accounted for —
    /// into the task's active-thread counter.
    pub fn task_empty(&mut self, task: &mut TaskExecution)
        requires
            old(task).wf(),
            old(self).signalled() ==> !old(task).published(),
        ensures
            final(task).wf(),
            final(self).signalled(),
            !final(task).published(),
            final(task).size() == old(task).size(),
            final(task).cursor() == old(task).cursor(),
            final(task).processed() == old(task).processed(),
            final(task).started() == old(task).started(),
            final(task).exited() == old(task).exited(),
            final(task).reserved() == old(task).reserved(),
            final(task).finishes() == old(task).finishes(),
    {
        match self.state {
            EmptySignalState::DidSignal => {},
            EmptySignalState::Main => {
                let old_value = task.slot.swap(TaggedPtr::new(0, 0));
                if old_value.ptr() == TASK_HANDLE {
                    // Fold the joins recorded in the tag into the active
                    // count; the count stays positive because this thread
                    // itself is among them.
                    let tag = old_value.tag();
                    task.active_threads = task.active_threads + tag as i32;
                }
            },
            EmptySignalState::Assist => {
                // The runtime retries this compare-and-swap until the slot
                // no longer points at the task; with the cell held for the
                // whole operation a failed exchange means exactly that, so
                // one attempt decides.
                let value = task.slot.load();
                if value.ptr() == TASK_HANDLE {
                    let result = task.slot.compare_exchange(value, TaggedPtr::new(0, 0));
                    match result {
                        Ok(old_value) => {
                            let tag = old_value.tag();
                            task.active_threads = task.active_threads + tag as i32;
                        },
                        Err(_) => {},
                    }
                }
            },
        }
        self.state = EmptySignalState::DidSignal;
    }
}

impl TaskExecution {
    /// A thread signals intent to join the published task by incrementing
    /// the tag of the activity slot, before ever touching the task itself.
    /// Returns whether the reservation was made; it fails on a slot that
    /// has already been retired — after which the task may already be
    /// freed, so the thread must not touch it — or when the tag field is
    /// exhausted (the runtime has far fewer threads than the field can
    /// count).
    pub fn reserve(&mut self) -> (r: bool)
        requires
            old(self).wf(),
        ensures
            final(self).wf(),
            r == (old(self).published() && old(self).started() < MAX_THREADS),
            r ==> old(self).finishes() == 0,
            r ==> final(self).started() == old(self).started() + 1 && final(self).reserved()
                == old(self).reserved() + 1 && final(self).published(),
            !r ==> *final(self) == *old(self),
            final(self).size() == old(self).size(),
            final(self).cursor() == old(self).cursor(),
            final(self).processed() == old(self).processed(),
            final(self).exited() == old(self).exited(),
            final(self).finishes() == old(self).finishes(),
    {
        let check = self.slot.load();
        if check.ptr() != TASK_HANDLE {
            return false;
        }
        if self.started >= MAX_THREADS {
            return false;
        }
        let activity = self.slot.fetch_add_tag(1);
        if activity.ptr() != TASK_HANDLE {
            // The runtime can reach this when the slot was retired between
            // the check and the increment; the stray tag on the null slot
            // is harmless and the thread walks away.
            return false;
        }
        self.started = self.started + 1;
        self.reserved_joins = self.reserved_joins + 1;
        true
    }

    /// A thread that holds a reservation claims its first chunk from the
    /// shared cursor and becomes a participant. The claimed chunk may
    /// already lie beyond the work size; the participant then merely
    /// signals and leaves, but it is still counted until it does.
    pub fn claim_first(&mut self) -> (p: Participant)
        requires
            old(self).wf(),
            old(self).reserved() >= 1,
            old(self).cursor() < u32::MAX,
        ensures
            final(self).wf(),
            p.chunk() == old(self).cursor(),
            !p.signalled(),
            final(self).published() == old(self).published(),
            final(self).cursor() == old(self).cursor() + 1,
            final(self).reserved() == old(self).reserved() - 1,
            final(self).size() == old(self).size(),
            final(self).processed() == old(self).processed(),
            final(self).started() == old(self).started(),
            final(self).exited() == old(self).exited(),
            final(self).finishes() == old(self).finishes(),
    {
        let chunk = self.work_index;
        self.work_index = self.work_index + 1;
        self.reserved_joins = self.reserved_joins - 1;
        Participant { chunk, signal: EmptySignal { state: EmptySignalState::Assist } }
    }

    /// One iteration of the chunked loop: the participant executes its
    /// claimed chunk and claims the next one. A participant about to
    /// execute the last chunk first retires the task from the slot, since
    /// no further thread could obtain work from it.
    pub fn loop_step(&mut self, p: &mut Participant)
        requires
            old(self).wf(),
            old(p).chunk() < old(self).size(),
            old(self).cursor() < u32::MAX,
            old(p).signalled() ==> !old(self).published(),
        ensures
            final(self).wf(),
            !old(self).published() ==> !final(self).published(),
            final(p).signalled() ==> !final(self).published(),
            final(self).processed() == old(self).processed().push(old(p).chunk()),
            final(p).chunk() == old(self).cursor(),
            final(self).cursor() == old(self).cursor() + 1,
            final(self).size() == old(self).size(),
            final(self).started() == old(self).started(),
            final(self).exited() == old(self).exited(),
            final(self).reserved() == old(self).reserved(),
            final(self).finishes() == old(self).finishes(),
    {
        if p.chunk == self.work_size - 1 {
            // All chunks are claimed once this one runs: make the task
            // undiscoverable before executing, as the runtime does.
            p.signal.task_empty(self);
        }
        self.chunk_log.push(p.chunk);
        let next = self.work_index;
        self.work_index = self.work_index + 1;
        p.chunk = next;
    }

    /// A participant whose claimed chunk lies beyond the work size leaves
    /// the task: it signals exhaustion (idempotently), then decrements the
    /// active-thread counter. The thread whose decrement reaches zero is
    /// the unique last participant; it runs the finish callback, which
    /// frees the task.
    pub fn loop_finish(&mut self, p: Participant)
        requires
            old(self).wf(),
            old(self).exited() + old(self).reserved() < old(self).started(),
            p.chunk() >= old(self).size(),
            p.signalled() ==> !old(self).published(),
        ensures
            final(self).wf(),
            !final(self).published(),
            final(self).exited() == old(self).exited() + 1,
            final(self).size() == old(self).size(),
            final(self).cursor() == old(self).cursor(),
            final(self).processed() == old(self).processed(),
            final(self).started() == old(self).started(),
            final(self).reserved() == old(self).reserved(),
            final(self).finishes() == (if old(self).exited() + 1 == old(self).started() {
                1int
            } else {
                0int
            }),
    {
        let mut p = p;
        p.signal.task_empty(self);
        let remaining = self.active_threads - 1;
        self.active_threads = remaining;
        self.exited = self.exited + 1;
        if remaining == 0 {
            // Only one thread observes the counter reach zero; it alone
            // retires the task object.
            self.finish_count = self.finish_count + 1;
        }
    }
}

/// The protocol's defence against touching a freed task: while a task is
/// still discoverable through its activity slot its finish callback has
/// not run — and joining is only possible through the slot, so a thread
/// that obtains a reservation never reaches a retired task. Conversely,
/// once finish has run, every thread that ever joined has already left.
pub proof fn lemma_no_access_after_retirement(exec: TaskExecution)
    requires
        exec.wf(),
    ensures
        exec.published() ==> exec.finishes() == 0,
        exec.finishes() > 0 ==> exec.exited() == exec.started(),
{
}

/// The share one participant holds of the outstanding work: the chunk it
/// has claimed, as long as that chunk lies within the work size.
pub open spec fn held(p: Participant, size: u32) -> Multiset<u32> {
    if p.chunk() < size {
        Multiset::empty().insert(p.chunk())
    } else {
        Multiset::empty()
    }
}

/// The chunks claimed but not yet executed, over all live participants.
pub open spec fn pending(parts: Seq<Participant>, size: u32) -> Multiset<u32>
    decreases parts.len(),
{
    if parts.len() == 0 {
        Multiset::empty()
    } else {
        pending(parts.drop_last(), size).add(held(parts.last(), size))
    }
}

/// The chunk indices `0 .. n` as a sequence.
pub open spec fn chunk_range(n: int) -> Seq<u32> {
    Seq::new(if n >= 0 { n as nat } else { 0 }, |i: int| i as u32)
}

/// The chunk indices `lo .. hi` as a sequence.
pub open spec fn chunk_span(lo: int, hi: int) -> Seq<u32> {
    Seq::new(if hi >= lo { (hi - lo) as nat } else { 0 }, |i: int| (lo + i) as u32)
}

/// Removing one participant removes exactly its held share from the
/// outstanding chunks.
pub proof fn lemma_pending_remove(parts: Seq<Participant>, k: int, size: u32)
    requires
        0 <= k < parts.len(),
    ensures
        pending(parts, size) == pending(parts.remove(k), size).add(held(parts[k], size)),
    decreases parts.len(),
{
    broadcast use vstd::multiset::group_multiset_axioms;

    if k == parts.len() - 1 {
        assert(parts.remove(k) =~= parts.drop_last());
    } else {
        assert(parts.remove(k).drop_last() =~= parts.drop_last().remove(k));
        assert(parts.remove(k).last() == parts.last());
        lemma_pending_remove(parts.drop_last(), k, size);
        assert(pending(parts, size) =~= pending(parts.remove(k), size).add(
            held(parts[k], size),
        ));
    }
}

/// Inserting one participant adds exactly its held share to the
/// outstanding chunks.
pub proof fn lemma_pending_insert(parts: Seq<Participant>, k: int, p: Participant, size: u32)
    requires
        0 <= k <= parts.len(),
    ensures
        pending(parts.insert(k, p), size) == pending(parts, size).add(held(p, size)),
{
    broadcast use vstd::multiset::group_multiset_axioms;

    lemma_pending_remove(parts.insert(k, p), k, size);
    assert(parts.insert(k, p).remove(k) =~= parts);
    assert(parts.insert(k, p)[k] == p);
}

/// Extending the chunk range by one index appends that index.
pub proof fn lemma_chunk_range_extend(n: int)
    requires
        0 <= n <= u32::MAX,
    ensures
        chunk_range(n + 1) =~= chunk_range(n).push(n as u32),
{
}

/// The multiset of chunk indices the cursor has handed out that lie
/// within the work size: every index below both the cursor and the size,
/// each exactly once.
pub open spec fn claimed_goal(cursor: int, size: int) -> Multiset<u32> {
    chunk_range(
        if cursor < size {
            cursor
        } else {
            size
        },
    ).to_multiset()
}

/// What the driver of a run knows at every step about the task state and
/// the live participants together: the thread counts balance, every held
/// chunk was handed out by the cursor, retirement is permanent, and the
/// chunks handed out within the work size are exactly the executed ones
/// plus the held ones.
pub open spec fn consistent(exec: TaskExecution, parts: Seq<Participant>) -> bool {
    &&& exec.wf()
    &&& parts.len() + exec.reserved() + exec.exited() == exec.started()
    &&& forall|i: int| 0 <= i < parts.len() ==> (#[trigger] parts[i]).chunk() < exec.cursor()
    &&& forall|i: int|
        0 <= i < parts.len() ==> ((#[trigger] parts[i]).signalled() ==> !exec.published())
    &&& exec.processed().to_multiset().add(pending(parts, exec.size())) == claimed_goal(
        exec.cursor() as int,
        exec.size() as int,
    )
    &&& exec.cursor() + exec.reserved() <= exec.started() + exec.processed().len()
    &&& exec.exited() > 0 ==> exec.cursor() >= exec.size()
}

/// A freshly claimed chunk — the cursor's current value — moves the handed
/// out multiset forward by one index when the cursor is still within the
/// work size, and by nothing once it is past it.
pub proof fn lemma_goal_extends(goal_in: Multiset<u32>, extra: Multiset<u32>, p: Participant, cursor: int, size: int)
    requires
        0 <= cursor < u32::MAX,
        0 <= size <= u32::MAX,
        p.chunk() == cursor as u32,
        goal_in == claimed_goal(cursor, size),
        extra == held(p, size as u32),
    ensures
        goal_in.add(extra) == claimed_goal(cursor + 1, size),
{
    broadcast use vstd::multiset::group_multiset_axioms;
    broadcast use vstd::seq_lib::group_to_multiset_ensures;

    if cursor < size {
        lemma_chunk_range_extend(cursor);
        assert(chunk_range(cursor + 1).to_multiset() == chunk_range(cursor).push(
            cursor as u32,
        ).to_multiset());
        assert(extra =~= Multiset::singleton(cursor as u32));
        assert(goal_in.add(extra) =~= chunk_range(cursor).to_multiset().insert(cursor as u32));
    } else {
        assert(extra =~= Multiset::<u32>::empty());
        assert(goal_in.add(extra) =~= goal_in);
    }
}

/// Appending one participant to the live set adds its held share to the
/// outstanding chunks.
pub proof fn lemma_pending_push(parts: Seq<Participant>, p: Participant, size: u32)
    ensures
        pending(parts.push(p), size) == pending(parts, size).add(held(p, size)),
{
    assert(parts.push(p).drop_last() =~= parts);
    assert(parts.push(p).last() == p);
}

/// From the balance of counts alone: no more chunks have been executed
/// than the task has, and the cursor stays well below the integer limit.
pub proof fn lemma_consistent_bounds(exec: TaskExecution, parts: Seq<Participant>)
    requires
        consistent(exec, parts),
    ensures
        exec.processed().len() <= exec.size(),
        exec.cursor() + exec.reserved() <= 0x1_0000 + exec.size(),
{
    broadcast use vstd::multiset::group_multiset_axioms;
    broadcast use vstd::seq_lib::group_to_multiset_ensures;

    let goal = claimed_goal(exec.cursor() as int, exec.size() as int);
    assert(exec.processed().to_multiset().len() == exec.processed().len());
    assert(goal.len() <= exec.size()) by {
        assert(chunk_range(if exec.cursor() < exec.size() {
            exec.cursor() as int
        } else {
            exec.size() as int
        }).to_multiset().len() <= exec.size());
    }
    assert(exec.processed().to_multiset().len() + pending(parts, exec.size()).len() == goal.len());
}

/// Runs one data-parallel task to completion under an arbitrary
/// interleaving of joins and loop steps, decoded from `schedule`; once the
/// schedule is exhausted, every outstanding reservation and participant is
/// run to completion. Returns the chunks executed, in execution order, and
/// the number of times the finish callback ran.
///
/// Whatever the interleaving: every chunk index in `0 .. work_size` is
/// executed exactly once, and finish runs exactly once.
pub fn simulate_dataparallel(work_size: u32, schedule: &Vec<u64>) -> (r: (Vec<u32>, u32))
    requires
        work_size <= u32::MAX - 0x1_0001,
    ensures
        r.0@.to_multiset() == chunk_range(work_size as int).to_multiset(),
        r.0@.len() == work_size,
        r.1 == 1,
{
    broadcast use vstd::multiset::group_multiset_axioms;
    broadcast use vstd::seq_lib::group_to_multiset_ensures;

    let task = Task::new_dataparallel(work_size);
    let (mut exec, owner) = start_task(task);
    let mut parts: Vec<Participant> = Vec::new();
    proof {
        assert(chunk_range(0) =~= Seq::<u32>::empty());
        assert(chunk_range(0).to_multiset().len() == 0);
        vstd::multiset::lemma_multiset_empty_len::<u32>(chunk_range(0).to_multiset());
        assert(chunk_range(0).to_multiset() =~= Multiset::<u32>::empty());
        assert(exec.processed().to_multiset().len() == 0);
        vstd::multiset::lemma_multiset_empty_len::<u32>(exec.processed().to_multiset());
        assert(exec.processed().to_multiset() =~= Multiset::<u32>::empty());
    }
    match owner {
        Some(p) => {
            parts.push(p);
            proof {
                assert(parts@.drop_last() =~= Seq::<Participant>::empty());
                assert(pending(Seq::<Participant>::empty(), work_size)
                    == Multiset::<u32>::empty());
                assert(parts@.last() == parts@[0]);
                assert(pending(parts@, work_size) == pending(
                    Seq::<Participant>::empty(),
                    work_size,
                ).add(held(parts@[0], work_size)));
                assert(pending(parts@, work_size) =~= held(parts@[0], work_size));
                lemma_goal_extends(
                    claimed_goal(0, work_size as int),
                    held(parts@[0], work_size),
                    parts@[0],
                    0,
                    work_size as int,
                );
                assert(exec.processed().to_multiset().add(pending(parts@, exec.size()))
                    =~= claimed_goal(1, work_size as int));
                assert(consistent(exec, parts@));
            }
        },
        None => {
            // A task without chunks completed the moment it started: its
            // finish ran once and there is nothing to hand out.
            proof {
                assert(pending(parts@, work_size) == Multiset::<u32>::empty());
                assert(exec.processed().to_multiset().add(pending(parts@, exec.size()))
                    =~= claimed_goal(exec.cursor() as int, work_size as int));
                assert(consistent(exec, parts@));
            }
        },
    }
    let mut s: usize = 0;
    while s < schedule.len()
        invariant
            consistent(exec, parts@),
            exec.size() == work_size,
            work_size <= u32::MAX - 0x1_0001,
        decreases schedule.len() - s,
    {
        let choice = schedule[s];
        let action = choice % 3;
        if action == 0 {
            proof {
                lemma_consistent_bounds(exec, parts@);
            }
            let joined = exec.reserve();
            proof {
                if joined {
                    assert(consistent(exec, parts@));
                }
            }
        } else if action == 1 {
            if exec.outstanding_reservations() > 0 {
                proof {
                    lemma_consistent_bounds(exec, parts@);
                }
                let ghost old_exec = exec;
                let ghost old_parts = parts@;
                let p = exec.claim_first();
                proof {
                    lemma_pending_push(old_parts, p, work_size);
                    lemma_goal_extends(
                        claimed_goal(old_exec.cursor() as int, work_size as int),
                        held(p, work_size),
                        p,
                        old_exec.cursor() as int,
                        work_size as int,
                    );
                    assert(exec.processed().to_multiset().add(
                        pending(old_parts.push(p), work_size),
                    ) =~= claimed_goal(exec.cursor() as int, work_size as int));
                }
                parts.push(p);
            }
        } else {
            if parts.len() > 0 {
                let k = ((choice / 3) % (parts.len() as u64)) as usize;
                let ghost old_exec = exec;
                let ghost old_parts = parts@;
                let mut p = parts.remove(k);
                if p.next_chunk() < work_size {
                    proof {
                        lemma_consistent_bounds(exec, old_parts);
                        lemma_pending_remove(old_parts, k as int, work_size);
                    }
                    exec.loop_step(&mut p);
                    proof {
                        lemma_pending_insert(old_parts.remove(k as int), k as int, p, work_size);
                        lemma_goal_extends(
                            claimed_goal(old_exec.cursor() as int, work_size as int),
                            held(p, work_size),
                            p,
                            old_exec.cursor() as int,
                            work_size as int,
                        );
                        assert(exec.processed() == old_exec.processed().push(
                            old_parts[k as int].chunk(),
                        ));
                        vstd::seq_lib::to_multiset_build(
                            old_exec.processed(),
                            old_parts[k as int].chunk(),
                        );
                        assert(exec.processed().to_multiset() =~= old_exec.processed()
                            .to_multiset().insert(old_parts[k as int].chunk()));
                        assert(exec.processed().to_multiset().add(
                            pending(old_parts.remove(k as int).insert(k as int, p), work_size),
                        ) =~= claimed_goal(exec.cursor() as int, work_size as int));
                    }
                    parts.insert(k, p);
                } else {
                    proof {
                        lemma_pending_remove(old_parts, k as int, work_size);
                        assert(held(old_parts[k as int], work_size) =~= Multiset::<u32>::empty());
                        assert(pending(old_parts.remove(k as int), work_size) =~= pending(
                            old_parts,
                            work_size,
                        ));
                    }
                    exec.loop_finish(p);
                }
            }
        }
        s = s + 1;
    }
    while exec.outstanding_reservations() > 0
        invariant
            consistent(exec, parts@),
            exec.size() == work_size,
            work_size <= u32::MAX - 0x1_0001,
        decreases exec.reserved(),
    {
        proof {
            lemma_consistent_bounds(exec, parts@);
        }
        let ghost old_exec = exec;
        let ghost old_parts = parts@;
        let p = exec.claim_first();
        proof {
            lemma_pending_push(old_parts, p, work_size);
            lemma_goal_extends(
                claimed_goal(old_exec.cursor() as int, work_size as int),
                held(p, work_size),
                p,
                old_exec.cursor() as int,
                work_size as int,
            );
            assert(exec.processed().to_multiset().add(pending(old_parts.push(p), work_size))
                =~= claimed_goal(exec.cursor() as int, work_size as int));
        }
        parts.push(p);
    }
    while parts.len() > 0
        invariant
            consistent(exec, parts@),
            exec.size() == work_size,
            exec.reserved() == 0,
            work_size <= u32::MAX - 0x1_0001,
        decreases parts@.len(), (if parts@.len() > 0 && parts@.last().chunk() < work_size {
            work_size - parts@.last().chunk()
        } else {
            0int
        }),
    {
        let ghost old_exec = exec;
        let ghost old_parts = parts@;
        let popped = parts.pop();
        match popped {
            Some(mut p) => {
                proof {
                    assert(old_parts.drop_last() =~= parts@);
                    assert(pending(old_parts, work_size) == pending(parts@, work_size).add(
                        held(p, work_size),
                    ));
                }
                if p.next_chunk() < work_size {
                    proof {
                        lemma_consistent_bounds(exec, old_parts);
                    }
                    exec.loop_step(&mut p);
                    proof {
                        lemma_pending_push(parts@, p, work_size);
                        lemma_goal_extends(
                            claimed_goal(old_exec.cursor() as int, work_size as int),
                            held(p, work_size),
                            p,
                            old_exec.cursor() as int,
                            work_size as int,
                        );
                        assert(exec.processed() == old_exec.processed().push(
                            old_parts.last().chunk(),
                        ));
                        vstd::seq_lib::to_multiset_build(
                            old_exec.processed(),
                            old_parts.last().chunk(),
                        );
                        assert(exec.processed().to_multiset() =~= old_exec.processed()
                            .to_multiset().insert(old_parts.last().chunk()));
                        assert(exec.processed().to_multiset().add(
                            pending(parts@.push(p), work_size),
                        ) =~= claimed_goal(exec.cursor() as int, work_size as int));
                    }
                    parts.push(p);
                } else {
                    proof {
                        assert(held(p, work_size) =~= Multiset::<u32>::empty());
                        assert(pending(parts@, work_size) =~= pending(old_parts, work_size));
                    }
                    exec.loop_finish(p);
                }
            },
            None => {},
        }
    }
    proof {
        assert(pending(parts@, work_size) =~= Multiset::<u32>::empty());
        assert(exec.exited() == exec.started());
        assert(exec.exited() >= 1);
        assert(exec.cursor() >= exec.size());
        assert(exec.processed().to_multiset().add(Multiset::<u32>::empty()) =~= exec.processed()
            .to_multiset());
        assert(exec.processed().to_multiset() == claimed_goal(
            exec.cursor() as int,
            work_size as int,
        ));
        assert(claimed_goal(exec.cursor() as int, work_size as int) == chunk_range(
            work_size as int,
        ).to_multiset());
        assert(exec.processed().len() == exec.processed().to_multiset().len());
        assert(chunk_range(work_size as int).to_multiset().len() == chunk_range(
            work_size as int,
        ).len());
        assert(!exec.published());
        assert(exec.finishes() == 1);
    }
    exec.into_results()
}

/// Some position of `order` names worker `q`.
pub open spec fn covers(order: Seq<usize>, q: int) -> bool {
    exists|i: int| 0 <= i < order.len() && #[trigger] order[i] == q as usize
}

/// The steal scan order of one worker: every other worker exactly once,
/// forward for even-ranked workers and backward for odd-ranked ones, so
/// that symmetric load does not pile all steals onto one queue.
fn steal_order(thread_index: usize, worker_count: usize) -> (order: Vec<usize>)
    requires
        thread_index < worker_count,
    ensures
        order@.len() == worker_count - 1,
        forall|i: int|
            0 <= i < order@.len() ==> #[trigger] order@[i] < worker_count && order@[i]
                != thread_index,
        forall|q: int| 0 <= q < worker_count && q != thread_index ==> #[trigger] covers(order@, q),
{
    let t = thread_index;
    let n = worker_count;
    let mut order: Vec<usize> = Vec::new();
    if t % 2 == 0 {
        let mut v = t + 1;
        while v < n
            invariant
                t + 1 <= v <= n || (t + 1 > n && v == t + 1),
                order@.len() == v - t - 1,
                forall|i: int| 0 <= i < order@.len() ==> #[trigger] order@[i] == t + 1 + i,
            decreases n - v,
        {
            order.push(v);
            v = v + 1;
        }
        let ghost first_len = order@.len() as int;
        let mut w: usize = 0;
        while w < t
            invariant
                w <= t,
                t < n,
                first_len == (if t + 1 <= n { n - t - 1 } else { 0int }),
                order@.len() == first_len + w,
                forall|i: int| 0 <= i < first_len ==> #[trigger] order@[i] == t + 1 + i,
                forall|i: int| first_len <= i < order@.len() ==> #[trigger] order@[i] == i
                    - first_len,
            decreases t - w,
        {
            order.push(w);
            w = w + 1;
        }
        proof {
            assert forall|q: int| 0 <= q < n && q != t implies #[trigger] covers(order@, q) by {
                if q > t {
                    assert(order@[q - t - 1] == q as usize);
                } else {
                    assert(order@[first_len + q] == q as usize);
                }
            }
        }
    } else {
        let mut v = t;
        while v > 0
            invariant
                v <= t < n,
                order@.len() == t - v,
                forall|i: int| 0 <= i < order@.len() ==> #[trigger] order@[i] == t - 1 - i,
            decreases v,
        {
            v = v - 1;
            order.push(v);
        }
        let mut w = n;
        while w > t + 1
            invariant
                t + 1 <= w <= n,
                order@.len() == t + (n - w),
                forall|i: int| 0 <= i < t ==> #[trigger] order@[i] == t - 1 - i,
                forall|i: int| t <= i < order@.len() ==> #[trigger] order@[i] == n - 1 - (i - t),
            decreases w,
        {
            w = w - 1;
            order.push(w);
        }
        proof {
            assert forall|q: int| 0 <= q < n && q != t implies #[trigger] covers(order@, q) by {
                if q < t {
                    assert(order@[t - 1 - q] == q as usize);
                } else {
                    assert(order@[t + (n - 1 - q)] == q as usize);
                }
            }
        }
    }
    order
}

/// The shared state of the pool of workers, apart from the activity slots:
/// one run queue per worker, and the process-wide flag that ends the run.
/// The owner of a queue pushes and pops at its back; other workers steal
/// from its front.
pub struct Workers {
    queues: Vec<Vec<Task>>,
    is_finished: bool,
}

impl Workers {
    /// The run queues, oldest task of each first.
    pub closed spec fn queues(self) -> Seq<Seq<Task>> {
        self.queues@.map_values(|q: Vec<Task>| q@)
    }

    /// Whether the run has been declared finished.
    pub closed spec fn finished(self) -> bool {
        self.is_finished
    }

    /// A pool of `worker_count` workers with empty queues.
    pub fn new(worker_count: usize) -> (r: Workers)
        requires
            worker_count >= 1,
        ensures
            r.queues().len() == worker_count,
            forall|q: int| 0 <= q < worker_count ==> (#[trigger] r.queues()[q]).len() == 0,
            !r.finished(),
    {
        let mut queues: Vec<Vec<Task>> = Vec::new();
        let mut i: usize = 0;
        while i < worker_count
            invariant
                i <= worker_count,
                queues@.len() == i,
                forall|q: int| 0 <= q < i ==> (#[trigger] queues@[q])@.len() == 0,
            decreases worker_count - i,
        {
            queues.push(Vec::new());
            i = i + 1;
        }
        let r = Workers { queues, is_finished: false };
        proof {
            assert forall|q: int| 0 <= q < worker_count implies (#[trigger] r.queues()[q]).len()
                == 0 by {
                assert(r.queues()[q] == queues@[q]@);
            }
        }
        r
    }

    /// Declares the whole run finished; every worker observes the flag at
    /// the top of its loop and exits.
    pub fn finish(&mut self)
        ensures
            final(self).queues() == old(self).queues(),
            final(self).finished(),
    {
        self.is_finished = true;
    }

    /// Reads the finished flag, as the worker loop does before every round.
    pub fn is_finished(&self) -> (r: bool)
        ensures
            r == self.finished(),
    {
        self.is_finished
    }

    /// Enqueues a follow-on task at the back of the calling worker's own
    /// queue, where the owner will pop it first (newest first, for cache
    /// locality).
    pub fn push_task(&mut self, thread_index: usize, task: Task)
        requires
            thread_index < old(self).queues().len(),
        ensures
            final(self).finished() == old(self).finished(),
            final(self).queues() == old(self).queues().update(
                thread_index as int,
                old(self).queues()[thread_index as int].push(task),
            ),
    {
        let mut own = self.queues.remove(thread_index);
        own.push(task);
        self.queues.insert(thread_index, own);
        proof {
            assert(self.queues() =~= old(self).queues().update(
                thread_index as int,
                old(self).queues()[thread_index as int].push(task),
            ));
        }
    }

    /// Claims a task to run: the newest from the worker's own queue, or
    /// else the oldest from the first non-empty peer queue in this
    /// worker's scan order. Returns nothing only when every queue is
    /// empty.
    pub fn claim_task(&mut self, thread_index: usize) -> (r: Option<Task>)
        requires
            thread_index < old(self).queues().len(),
        ensures
            final(self).finished() == old(self).finished(),
            final(self).queues().len() == old(self).queues().len(),
            old(self).queues()[thread_index as int].len() > 0 ==> r is Some && r->0 == old(
                self,
            ).queues()[thread_index as int].last() && final(self).queues() == old(
                self,
            ).queues().update(
                thread_index as int,
                old(self).queues()[thread_index as int].drop_last(),
            ),
            (forall|q: int|
                0 <= q < old(self).queues().len() ==> (#[trigger] old(self).queues()[q]).len()
                    == 0) ==> r is None && final(self).queues() == old(self).queues(),
            old(self).queues()[thread_index as int].len() == 0 && (exists|q: int|
                0 <= q < old(self).queues().len() && (#[trigger] old(self).queues()[q]).len() > 0)
                ==> r is Some && (exists|q: int|
                0 <= q < old(self).queues().len() && q != thread_index && (#[trigger] old(
                    self,
                ).queues()[q]).len() > 0 && r->0 == old(self).queues()[q][0] && final(self).queues()
                    == old(self).queues().update(q, old(self).queues()[q].drop_first())),
    {
        let n = self.queues.len();
        let mut own = self.queues.remove(thread_index);
        if own.len() > 0 {
            let task = own.pop();
            self.queues.insert(thread_index, own);
            proof {
                assert(self.queues() =~= old(self).queues().update(
                    thread_index as int,
                    old(self).queues()[thread_index as int].drop_last(),
                ));
            }
            return task;
        }
        self.queues.insert(thread_index, own);
        proof {
            assert(self.queues() =~= old(self).queues());
        }
        let order = steal_order(thread_index, n);
        let mut idx: usize = 0;
        while idx < order.len()
            invariant
                self.queues@.len() == n,
                thread_index < n,
                self.is_finished == old(self).is_finished,
                self.queues() == old(self).queues(),
                old(self).queues()[thread_index as int].len() == 0,
                order@.len() == n - 1,
                forall|i: int|
                    0 <= i < order@.len() ==> #[trigger] order@[i] < n && order@[i] != thread_index,
                forall|q: int| 0 <= q < n && q != thread_index ==> #[trigger] covers(order@, q),
                forall|i: int|
                    0 <= i < idx ==> (#[trigger] old(self).queues()[order@[i] as int]).len() == 0,
            decreases order@.len() - idx,
        {
            let other = order[idx];
            if self.queues[other].len() > 0 {
                let mut victim = self.queues.remove(other);
                let task = victim.remove(0);
                self.queues.insert(other, victim);
                proof {
                    assert(self.queues() =~= old(self).queues().update(
                        other as int,
                        old(self).queues()[other as int].drop_first(),
                    ));
                }
                return Some(task);
            }
            idx = idx + 1;
        }
        proof {
            assert forall|q: int| 0 <= q < n implies (#[trigger] old(self).queues()[q]).len()
                == 0 by {
                if q != thread_index {
                    assert(covers(order@, q));
                    let i = choose|i: int| 0 <= i < order@.len() && #[trigger] order@[i]
                        == q as usize;
                    assert(old(self).queues()[order@[i] as int].len() == 0);
                }
            }
        }
        None
    }
}

} // verus!
