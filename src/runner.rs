//! Running the jobs: the decisions around an outside pool of processes that
//! runs at most a given number of commands at once and stops starting new
//! ones soon after a given number of them failed.
use vstd::prelude::*;
use crate::classify::{classification, PearError, ReadPairLookup};
use crate::jobs::{commands, make_jobs, option_args, Config};
use crate::pattern::views;
use crate::text::{decimal, decimal_string, join_strings, joined};

verus! {

/// How a batch of jobs ended.
#[derive(Clone, Copy, Debug, PartialEq, Eq, Structural)]
pub enum RunOutcome {
    Succeeded,
    Failed,
}

/// Where a batch stands: nothing started, handed to the pool, or ended.
#[derive(Clone, Copy, Debug, PartialEq, Eq, Structural)]
pub enum RunnerState {
    Idle,
    Dispatching,
    Finished(RunOutcome),
}

/// What the pool is started with: its arguments, and the text on its input,
/// one command per line.
pub struct PoolLaunch {
    pub args: Vec<String>,
    pub input: String,
}

/// The pool's arguments: the number of jobs at once and, for a positive
/// halt count, to stop soon after that many failures.
pub open spec fn pool_args(num_concurrent_jobs: u32, num_halt: u32) -> Seq<Seq<char>> {
    seq!["-j"@, decimal(num_concurrent_jobs as nat)] + if num_halt > 0 {
        seq!["--halt"@, "soon,fail="@ + decimal(num_halt as nat)]
    } else {
        Seq::empty()
    }
}

/// The pool's arguments for the two limits.
pub fn pool_arguments(num_concurrent_jobs: u32, num_halt: u32) -> (r: Vec<String>)
    ensures
        views(r@) == pool_args(num_concurrent_jobs, num_halt),
{
    let mut args: Vec<String> = Vec::new();
    args.push(String::from_str("-j"));
    args.push(decimal_string(num_concurrent_jobs as u64));
    if num_halt > 0 {
        args.push(String::from_str("--halt"));
        let mut h = String::from_str("soon,fail=");
        h.append(decimal_string(num_halt as u64).as_str());
        args.push(h);
    }
    assert(views(args@) =~= pool_args(num_concurrent_jobs, num_halt));
    args
}

/// Starts a batch. With no jobs it has succeeded and the pool is not
/// started; otherwise the pool is started with the limits and the jobs.
pub fn dispatch(jobs: &Vec<String>, num_concurrent_jobs: u32, num_halt: u32) -> (r: (
    RunnerState,
    Option<PoolLaunch>,
))
    ensures
        jobs@.len() == 0 ==> r.0 == RunnerState::Finished(RunOutcome::Succeeded) && r.1 is None,
        jobs@.len() > 0 ==> {
            &&& r.0 == RunnerState::Dispatching
            &&& r.1 is Some
            &&& views(r.1->0.args@) == pool_args(num_concurrent_jobs, num_halt)
            &&& r.1->0.input@ == joined(views(jobs@), "\n"@)
        },
{
    if jobs.len() == 0 {
        return (RunnerState::Finished(RunOutcome::Succeeded), None);
    }
    let launch = PoolLaunch {
        args: pool_arguments(num_concurrent_jobs, num_halt),
        input: join_strings(jobs, "\n"),
    };
    (RunnerState::Dispatching, Some(launch))
}

/// The state once the pool has ended: a batch being run has succeeded
/// exactly when the pool exited with success, whatever became of each job.
/// A batch in any other state stays as it is.
pub fn pool_exited(state: RunnerState, exit_success: bool) -> (r: RunnerState)
    ensures
        state == RunnerState::Dispatching ==> r == RunnerState::Finished(
            if exit_success {
                RunOutcome::Succeeded
            } else {
                RunOutcome::Failed
            },
        ),
        state != RunnerState::Dispatching ==> r == state,
{
    match state {
        RunnerState::Dispatching => RunnerState::Finished(
            if exit_success {
                RunOutcome::Succeeded
            } else {
                RunOutcome::Failed
            },
        ),
        _ => state,
    }
}

/// The result that a finished batch reports.
pub fn run_result(outcome: RunOutcome) -> (r: Result<(), PearError>)
    ensures
        outcome == RunOutcome::Succeeded <==> r is Ok,
        outcome == RunOutcome::Failed ==> r == Err::<(), PearError>(PearError::JobsFailed),
{
    match outcome {
        RunOutcome::Succeeded => Ok(()),
        RunOutcome::Failed => Err(PearError::JobsFailed),
    }
}

/// The samples and commands for a run over the files found:
/// `NoInputFiles` where there are none, `NoPairs` where no sample has both
/// reads, and otherwise the complete samples with one merge command for
/// each, in the same order.
pub fn plan_jobs(files: &[String], config: &Config) -> (r: Result<
    (ReadPairLookup, Vec<String>),
    PearError,
>)
    ensures
        files@.len() == 0 ==> r is Err && r->Err_0 == PearError::NoInputFiles,
        files@.len() > 0 && classification(views(files@)).len() == 0 ==> r is Err && r->Err_0
            == PearError::NoPairs,
        files@.len() > 0 && classification(views(files@)).len() > 0 ==> {
            &&& r is Ok
            &&& r->Ok_0.0.view() == classification(views(files@))
            &&& views(r->Ok_0.1@) == commands(
                config.out_dir@,
                classification(views(files@)),
                option_args(config),
            )
        },
{
    if files.len() == 0 {
        return Err(PearError::NoInputFiles);
    }
    match crate::classify::classify(files) {
        Err(e) => Err(e),
        Ok(pairs) => {
            let jobs = make_jobs(config, &pairs);
            Ok((pairs, jobs))
        },
    }
}

/// The line announcing a batch: `<label> (# <n> job[s] @ <limit>)`.
pub fn dispatch_message(label: &str, num_jobs: usize, num_concurrent_jobs: u32) -> (r: String)
    ensures
        r@ == label@ + " (# "@ + decimal(num_jobs as nat) + " job"@ + (if num_jobs == 1 {
            ""@
        } else {
            "s"@
        }) + " @ "@ + decimal(num_concurrent_jobs as nat) + ")"@,
{
    let mut s = String::from_str(label);
    s.append(" (# ");
    s.append(decimal_string(num_jobs as u64).as_str());
    s.append(" job");
    if num_jobs == 1 {
        s.append("");
    } else {
        s.append("s");
    }
    s.append(" @ ");
    s.append(decimal_string(num_concurrent_jobs as u64).as_str());
    s.append(")");
    s
}

} // verus!
