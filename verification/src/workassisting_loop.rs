//! The chunked work loop that every thread participating in a
//! data-parallel task runs.
//!
//! Starting from its first claimed chunk, a thread executes the chunk,
//! claims the next one from the shared cursor, and keeps going while the
//! claim lies within the work size. The thread that claims the last chunk
//! retires the task from its activity slot before executing, so that no
//! further thread can join a task with nothing left to hand out; and every
//! thread signals once more, idempotently, on its way out.

use crate::task::Task;
use crate::worker::{chunk_range, chunk_span, start_task, Participant, TaskExecution};
use vstd::prelude::*;

verus! {

/// Runs one participant's whole share of the chunked loop, then leaves the
/// task. The chunks this thread executes are its first claim followed by
/// every further claim that still lay within the work size; since the
/// cursor hands out consecutive indices, that is the span from the
/// cursor's value at entry up to the work size.
pub fn workassisting_loop(task: &mut TaskExecution, p: Participant)
    requires
        old(task).wf(),
        old(task).exited() + old(task).reserved() < old(task).started(),
        p.signalled() ==> !old(task).published(),
        p.chunk() < old(task).cursor(),
        old(task).cursor() as int + old(task).size() as int + 1 < u32::MAX,
    ensures
        final(task).wf(),
        !final(task).published(),
        final(task).exited() == old(task).exited() + 1,
        final(task).started() == old(task).started(),
        final(task).reserved() == old(task).reserved(),
        final(task).size() == old(task).size(),
        final(task).finishes() == (if old(task).exited() + 1 == old(task).started() {
            1int
        } else {
            0int
        }),
        p.chunk() >= old(task).size() ==> final(task).processed() == old(task).processed()
            && final(task).cursor() == old(task).cursor(),
        p.chunk() < old(task).size() ==> final(task).processed() == old(task).processed()
            + seq![p.chunk()] + chunk_span(
            old(task).cursor() as int,
            old(task).size() as int,
        ) && final(task).cursor() == (if old(task).cursor() >= old(task).size() {
            old(task).cursor() + 1
        } else {
            old(task).size() + 1
        }),
{
    let ghost t0 = *task;
    let ghost p0 = p;
    let mut p = p;
    let size = task.work_size();
    while p.next_chunk() < size
        invariant
            size == t0.size(),
            task.wf(),
            task.size() == t0.size(),
            task.started() == t0.started(),
            task.exited() == t0.exited(),
            task.reserved() == t0.reserved(),
            task.finishes() == t0.finishes(),
            t0.exited() + t0.reserved() < t0.started(),
            t0.cursor() as int + t0.size() as int + 1 < u32::MAX,
            p.signalled() ==> !task.published(),
            p0.chunk() < t0.cursor(),
            (p.chunk() == p0.chunk() && task.processed() == t0.processed() && task.cursor()
                == t0.cursor()) || (p.chunk() + 1 == task.cursor() && p.chunk() >= t0.cursor() && (
            p.chunk() == t0.cursor() || p.chunk() <= t0.size()) && task.processed()
                == t0.processed() + seq![p0.chunk()] + chunk_span(
                t0.cursor() as int,
                p.chunk() as int,
            ) && p0.chunk() < t0.size()),
        decreases (if p.chunk() < t0.size() {
            t0.size() - p.chunk() + 1
        } else {
            0int
        }),
    {
        let ghost before = *task;
        let ghost chunk_before = p.chunk();
        task.loop_step(&mut p);
        proof {
            if chunk_before == p0.chunk() && before.processed() == t0.processed()
                && before.cursor() == t0.cursor() {
                assert(chunk_span(t0.cursor() as int, t0.cursor() as int)
                    =~= Seq::<u32>::empty());
                assert(task.processed() =~= t0.processed() + seq![p0.chunk()] + chunk_span(
                    t0.cursor() as int,
                    t0.cursor() as int,
                ));
            } else {
                assert(chunk_span(t0.cursor() as int, chunk_before + 1) =~= chunk_span(
                    t0.cursor() as int,
                    chunk_before as int,
                ).push(chunk_before));
                assert(task.processed() =~= t0.processed() + seq![p0.chunk()] + chunk_span(
                    t0.cursor() as int,
                    chunk_before + 1,
                ));
            }
        }
    }
    proof {
        if p.chunk() != p0.chunk() && p0.chunk() < t0.size() && t0.cursor() < t0.size() {
            assert(p.chunk() == t0.size());
        }
    }
    task.loop_finish(p);
}

/// Runs a data-parallel task to completion on a single worker, as the
/// scheduler does when it alone executes the task: the owner claims every
/// chunk in ascending order, so the chunks are executed exactly in order,
/// and finish runs exactly once.
pub fn run_task_single_thread(work_size: u32) -> (r: (Vec<u32>, u32))
    requires
        work_size < 0xFFFF_0000u32,
    ensures
        r.0@ == chunk_range(work_size as int),
        r.1 == 1,
{
    let task = Task::new_dataparallel(work_size);
    let (mut exec, owner) = start_task(task);
    match owner {
        Some(p) => {
            workassisting_loop(&mut exec, p);
            proof {
                if work_size == 1 {
                    assert(chunk_span(1, 1) =~= Seq::<u32>::empty());
                }
                assert(exec.processed() =~= chunk_range(work_size as int));
            }
        },
        None => {
            proof {
                assert(chunk_range(0) =~= Seq::<u32>::empty());
                assert(exec.processed() =~= chunk_range(work_size as int));
            }
        },
    }
    exec.into_results()
}

} // verus!
