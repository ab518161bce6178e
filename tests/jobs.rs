use run_pear::jobs::output_path;
use run_pear::runner::{dispatch_message, pool_arguments};
use run_pear::text::{decimal_string, join_strings};
use run_pear::{
    classify, dispatch, make_jobs, plan_jobs, pool_exited, run_result, tool_args, Config,
    PearError, RunOutcome, RunnerState,
};

fn strings(v: &[&str]) -> Vec<String> {
    v.iter().map(|s| s.to_string()).collect()
}

fn bare_config(out_dir: &str) -> Config {
    Config {
        query: vec![],
        out_dir: out_dir.to_string(),
        p_value: None,
        min_overlap: None,
        max_assembly_length: None,
        min_assembly_length: None,
        min_trim_length: None,
        quality_threshold: None,
        max_uncalled_base: None,
        test_method: None,
        empirical_freqs: Some(false),
        score_method: None,
        phred_base: None,
        memory: None,
        cap: None,
        threads: None,
        nbase: Some(false),
        keep_original: None,
        stitch: Some(false),
        num_concurrent_jobs: None,
        num_halt: None,
    }
}

#[test]
fn no_options_give_no_args() {
    assert!(tool_args(&bare_config("out")).is_empty());
}

#[test]
fn every_option_has_its_flag() {
    let mut c = bare_config("out");
    c.p_value = Some(0.01f32.to_string());
    c.min_overlap = Some(10);
    c.max_assembly_length = Some(300);
    c.min_assembly_length = Some(50);
    c.min_trim_length = Some(1);
    c.quality_threshold = Some(0);
    c.max_uncalled_base = Some(1.0f32.to_string());
    c.test_method = Some(2);
    c.empirical_freqs = Some(true);
    c.score_method = Some(3);
    c.phred_base = Some(64);
    c.memory = Some("2G".to_string());
    c.cap = Some(40);
    c.threads = Some(4294967295);
    c.nbase = Some(true);
    c.keep_original = Some(true);
    c.stitch = Some(true);
    assert_eq!(
        tool_args(&c),
        strings(&[
            "-p 0.01", "-v 10", "-m 300", "-n 50", "-t 1", "-q 0", "-u 1", "-g 2", "-e", "-s 3",
            "-b 64", "-y 2G", "-c 40", "-j 4294967295", "-z", "-k", "-i",
        ])
    );
}

#[test]
fn jobs_one_per_complete_sample() {
    let pairs = classify(&strings(&["/d/a_1.fq", "/d/a_2.fq", "/d/b_R1.fq", "/d/b_R2.fq", "/d/c_1.fq"]))
        .unwrap();
    let mut c = bare_config("/out");
    c.threads = Some(2);
    c.stitch = Some(true);
    let jobs = make_jobs(&c, &pairs);
    assert_eq!(
        jobs,
        strings(&[
            "pear -f /d/a_1.fq -r /d/a_2.fq -o /out/a -j 2 -i",
            "pear -f /d/b_R1.fq -r /d/b_R2.fq -o /out/b -j 2 -i",
        ])
    );
}

#[test]
fn job_without_options_keeps_trailing_space() {
    let pairs = classify(&strings(&["s_1.fq", "s_2.fq"])).unwrap();
    let jobs = make_jobs(&bare_config("out/"), &pairs);
    assert_eq!(jobs, strings(&["pear -f s_1.fq -r s_2.fq -o out/s "]));
}

#[test]
fn output_paths() {
    assert_eq!(output_path("out", "s"), "out/s");
    assert_eq!(output_path("out/", "s"), "out/s");
    assert_eq!(output_path("", "s"), "s");
}

#[test]
fn decimals_and_joining() {
    assert_eq!(decimal_string(0), "0");
    assert_eq!(decimal_string(7), "7");
    assert_eq!(decimal_string(120), "120");
    assert_eq!(decimal_string(18446744073709551615), "18446744073709551615");
    assert_eq!(join_strings(&strings(&["a", "b", "c"]), ", "), "a, b, c");
    assert_eq!(join_strings(&strings(&[]), ", "), "");
}

#[test]
fn empty_job_list_succeeds_without_pool() {
    let (state, launch) = dispatch(&vec![], 8, 1);
    assert_eq!(state, RunnerState::Finished(RunOutcome::Succeeded));
    assert!(launch.is_none());
    assert_eq!(pool_exited(state, false), state);
}

#[test]
fn jobs_go_to_pool_one_per_line() {
    let (state, launch) = dispatch(&strings(&["pear a", "pear b"]), 8, 1);
    assert_eq!(state, RunnerState::Dispatching);
    let launch = launch.unwrap();
    assert_eq!(launch.args, strings(&["-j", "8", "--halt", "soon,fail=1"]));
    assert_eq!(launch.input, "pear a\npear b");
}

#[test]
fn halt_zero_asks_no_halt() {
    assert_eq!(pool_arguments(3, 0), strings(&["-j", "3"]));
    assert_eq!(pool_arguments(16, 12), strings(&["-j", "16", "--halt", "soon,fail=12"]));
}

#[test]
fn failing_pool_fails_the_batch() {
    let (state, _) = dispatch(&strings(&["ok", "bad", "ok"]), 2, 0);
    let end = pool_exited(state, false);
    assert_eq!(end, RunnerState::Finished(RunOutcome::Failed));
    assert_eq!(run_result(RunOutcome::Failed), Err(PearError::JobsFailed));
    assert_eq!(pool_exited(state, true), RunnerState::Finished(RunOutcome::Succeeded));
    assert_eq!(run_result(RunOutcome::Succeeded), Ok(()));
}

#[test]
fn planning_reports_each_error() {
    let c = bare_config("o");
    assert!(matches!(plan_jobs(&[], &c), Err(PearError::NoInputFiles)));
    assert!(matches!(plan_jobs(&strings(&["x.fq", "y_1.fq"]), &c), Err(PearError::NoPairs)));
    let (pairs, jobs) = plan_jobs(&strings(&["y_1.fq", "y_2.fq"]), &c).unwrap();
    assert_eq!(pairs.len(), 1);
    assert!(pairs.contains_key("y"));
    assert_eq!(jobs, strings(&["pear -f y_1.fq -r y_2.fq -o o/y "]));
}

#[test]
fn announcement_line() {
    assert_eq!(dispatch_message("Running pear", 1, 8), "Running pear (# 1 job @ 8)");
    assert_eq!(dispatch_message("Running pear", 3, 2), "Running pear (# 3 jobs @ 2)");
}
