//! A verified model of a work-assisting scheduler and its workloads.
//!
//! The library verifies the logic of a lock-free runtime in which idle
//! worker threads either steal whole tasks or join ("assist") a chunked
//! parallel loop that another thread already owns, together with the
//! chained-scan-with-decoupled-lookback protocol and the numeric
//! workloads built on top of it.

pub mod prime;
pub mod ptr;
pub mod task;
pub mod workassisting_loop;
pub mod worker;
pub mod compact;
pub mod compact_lookback;
pub mod lookback;
pub mod quicksort;
pub mod scan;
pub mod sum_array;
