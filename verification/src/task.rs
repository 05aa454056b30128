//! The schedulable unit of the runtime.
//!
//! A task is either *single* — plain task parallelism, executed by one
//! thread, only its finish callback runs — or *data-parallel*, carrying a
//! number of chunks that idle threads may help to execute. The model keeps
//! the scheduling-relevant part of a task: its kind and its chunk count.
//! The payload and the callbacks themselves stay with the embedding
//! program; the scheduler never looks inside them.

use vstd::prelude::*;

verus! {

/// What the scheduler knows about one task.
#[derive(Clone, Copy)]
pub struct Task {
    work_size: u32,
    data_parallel: bool,
}

impl Task {
    /// The number of chunks of the task's parallel loop; 0 for single tasks.
    pub closed spec fn size(self) -> u32 {
        self.work_size
    }

    /// Whether the task was created with a chunked-loop body at all.
    pub closed spec fn is_data_parallel(self) -> bool {
        self.data_parallel
    }

    /// A task whose loop body may be executed chunk-wise by several
    /// threads; `work_size` is the number of chunks.
    pub fn new_dataparallel(work_size: u32) -> (r: Task)
        ensures
            r.size() == work_size,
            r.is_data_parallel(),
    {
        Task { work_size, data_parallel: true }
    }

    /// A task with only a finish callback and no data parallelism.
    pub fn new_single() -> (r: Task)
        ensures
            r.size() == 0,
            !r.is_data_parallel(),
    {
        Task { work_size: 0, data_parallel: false }
    }

    /// The number of chunks, as the scheduler reads it.
    pub fn work_size(&self) -> (r: u32)
        ensures
            r == self.size(),
    {
        self.work_size
    }
}

} // verus!
