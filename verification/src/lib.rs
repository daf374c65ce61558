//! # unsynced
//!
//! Finds crash-consistency bugs: the ways a program's on-disk state can be
//! left broken by a power loss at the wrong moment.
//!
//! 1. **Record** what a workload does to a directory: in-process with
//!    [`Recorder`], or for any program on Linux from the log that `strace`
//!    writes ([`strace::parse`]).
//! 2. **Compile** the trace into micro-ops a file system may persist
//!    independently, each tagged with the `fsync` that made it durable
//!    ([`program`]).
//! 3. **Enumerate** the disk states a crash can leave behind under a
//!    persistence [`Profile`]: lost, reordered and torn writes, lost
//!    directory entries, sizes that outlive their data ([`crash`], [`states`]).
//! 4. **Check** each unique state with a checker ([`check()`]), then **minimize**
//!    each failure to the operations whose loss causes it and explain the fix
//!    ([`explain`]).
//!
//! The library computes on values in memory. What holds of it as a whole is
//! stated and proved, from the persistence model to the report:
//!
//! - the model: [`laws`], [`durability_laws`] (what each barrier makes durable),
//!   [`content_laws`] (what each op does to files and directories),
//!   [`replay_laws`] (ops, micro-ops and marks), [`listing_laws`] and
//!   [`snapshot_laws`] (what is on disk);
//! - the search: [`search_laws`] (which states are examined);
//! - the verdicts: [`check_laws`], [`verdict_laws`], [`minimal_laws`],
//!   [`blame_laws`] (how failures become vulnerabilities), [`explain_laws`],
//!   [`report_laws`];
//! - recovery: [`recovery_laws`], [`second_crash_laws`];
//! - recording: [`record_laws`], [`strace_laws`], [`log_laws`] (what is read from a
//!   log), [`call_laws`] (what each system call does);
//! - the rest: [`path_laws`], [`text_laws`], [`cli_laws`].

pub mod blame_laws;
pub mod bundle;
pub mod call_laws;
pub mod check;
pub mod check_laws;
pub mod cli;
pub mod cli_laws;
pub mod content_laws;
pub mod crash;
pub mod durability_laws;
pub mod error;
pub mod explain;
pub mod explain_laws;
pub mod hex;
pub mod laws;
pub mod listing_laws;
pub mod log_laws;
pub mod minimal_laws;
pub mod model;
pub mod names;
pub mod numbers;
pub mod path_laws;
pub mod paths;
pub mod program;
pub mod record;
pub mod record_laws;
pub mod recovery;
pub mod recovery_laws;
pub mod replay_laws;
pub mod report;
pub mod report_laws;
pub mod search_laws;
pub mod second_crash_laws;
pub mod snapshot_laws;
pub mod states;
pub mod strace;
pub mod strace_laws;
pub mod syscall;
pub mod text;
pub mod text_laws;
pub mod trace;
pub mod verdict_laws;

pub use check::{check, Crash, Options};
pub use crash::Search;
pub use error::Error;
pub use explain::{Kind, OpRef, Vulnerability};
pub use model::Profile;
pub use record::{RecFile, Recorder};
pub use recovery::{check_with_recovery, Recovery};
pub use report::Report;
pub use trace::{Entry, Op, Trace, Tree};
