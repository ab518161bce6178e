//! Pairing of paired-end read files by name, and the construction and
//! dispatch of one merge job per sample.

pub mod names;
pub mod text;
pub mod pattern;
pub mod classify;
pub mod jobs;
pub mod runner;
pub mod laws;
pub mod replay;

pub use classify::{classify, PearError, ReadPair, ReadPairLookup, SampleGroup};
pub use jobs::{make_jobs, tool_args, Config};
pub use names::get_extension;
pub use pattern::{extension_vocabulary, match_pair, ReadDirection};
pub use runner::{dispatch, plan_jobs, pool_exited, run_result, PoolLaunch, RunOutcome, RunnerState};
