//! clove4apm — Application Performance Monitoring that returns structs.
//!
//! No storage, no files, no writers, no background threads:
//! [`Apm::snapshot`] takes readings and returns an [`ApmReport`]. What the
//! caller does with it — log it, serve it on `/health`, ship it, ignore it — is
//! the caller's business.
//!
//! The only state kept between calls is what a *rate* needs: the previous
//! sample, a bounded ring of memory readings, and in-RAM counters for scopes
//! and errors. All of it dies with the process.
//!
//! # Reading a report
//!
//! * **Rates are `None` on the first snapshot.** There is no interval to divide
//!   by yet. Take a second one a few seconds later before believing any rate,
//!   including CPU, which is computed from a delta too.
//! * **`None` means unmeasured, not zero.** Nothing here guesses.
//! * **The floor, not the peak, is the leak signal.** See [`MemoryTrend`].
//! * **Percentiles, not averages.** An average hides the tail; see [`OpTiming`].
//!
//! # Numbers
//!
//! Percentages, rates and slopes are floating-point numbers carried by their
//! bit patterns ([`float::double::Double`], [`float::single::Single`]), so that
//! what is computed with them can be stated exactly. Conversions to and from the
//! machine's own types are left to the caller.

pub mod allocator;
pub mod apm;
pub mod checks;
pub mod disk;
pub mod errors;
pub mod float;
pub mod hist;
pub mod net;
pub mod process;
pub mod report;
pub mod rows;
pub mod scope;
pub mod system;
pub mod text;
pub mod trend;
pub mod triggers;
pub mod verdict;
pub mod watch;

pub use apm::{memory_probe_available, note_error, Apm, Config, Readings};
pub use report::{
    AllocStats, ApmReport, Check, CheckResult, DiskMetrics, ErrorSummary, Health, Identity, IoRates,
    MemoryHealth, Metric, NetMetrics, OpTiming, ProcessMetrics, ScopeMemory, SystemMetrics, Trigger,
    Verdict, WatchEvent, WatchedProcess,
};
pub use scope::{measure, Scope};
pub use trend::MemoryTrend;
pub use triggers::Thresholds;
pub use verdict::Limits;
