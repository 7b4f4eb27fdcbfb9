//! An instrumentation profiler that charges hardware clock cycles to named
//! code regions, telling apart the cycles spent strictly inside a region
//! (exclusive) from those spent in it and in everything it calls (inclusive).
//!
//! The library never reads a clock itself: every operation that needs the
//! current counter value takes it as an argument.

pub mod cpu;
pub mod nesting;
pub mod patterns;
pub mod profiler;
pub mod regions;
pub mod report;
pub mod timing;

pub use cpu::get_cpu_freq;
pub use profiler::{ProfileScope, Profiler, ProfilerSlot, SLOT_COUNT};
pub use regions::{RegionError, RegionTable};
pub use report::{ProfilerError, Report, ReportLine};
