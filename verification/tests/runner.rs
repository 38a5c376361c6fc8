use benchkit::runner::{validate, BenchError, BenchRun, RunArgs, RunOutcome, Step};

fn args(command: &str, runs: u32, warmup: u32, ignore_failure: bool) -> RunArgs {
    RunArgs {
        command: command.to_string(),
        runs,
        warmup,
        ignore_failure,
        json: false,
        label: None,
        show_runs: false,
    }
}

fn ok(ns: u64) -> RunOutcome {
    RunOutcome { elapsed_ns: ns, success: true, code: Some(0) }
}

#[test]
fn validate_accepts_a_command() {
    assert_eq!(validate(&args("sleep 0.1", 10, 3, false)), Ok(()));
    assert_eq!(validate(&args(" \t ls", 1, 0, false)), Ok(()));
}

#[test]
fn validate_rejects_zero_runs() {
    assert_eq!(validate(&args("sleep 0.1", 0, 3, false)), Err(BenchError::ZeroRuns));
    // the run count is checked first
    assert_eq!(validate(&args("   ", 0, 3, false)), Err(BenchError::ZeroRuns));
}

#[test]
fn validate_rejects_blank_commands() {
    assert_eq!(validate(&args("", 10, 3, false)), Err(BenchError::EmptyCommand));
    assert_eq!(validate(&args("  \t\n ", 10, 3, false)), Err(BenchError::EmptyCommand));
    // a no-break space is whitespace too, as for `str::trim`
    assert_eq!(validate(&args("\u{A0}\u{2003}", 10, 3, false)), Err(BenchError::EmptyCommand));
    assert_eq!(validate(&args("\u{A0}x", 10, 3, false)), Ok(()));
}

#[test]
fn label_defaults_to_command() {
    let mut a = args("sleep 0.1", 10, 3, false);
    assert_eq!(a.display_label(), "sleep 0.1");
    a.label = Some("nap".to_string());
    assert_eq!(a.display_label(), "nap");
}

#[test]
fn warmup_runs_are_not_recorded() {
    let mut run = BenchRun::new(&args("x", 2, 3, false));
    assert_eq!(run.next(), Step::Warmup);
    assert_eq!(run.record(ok(1000)), Ok(Step::Warmup));
    assert_eq!(run.record(ok(1001)), Ok(Step::Warmup));
    assert_eq!(run.record(ok(1002)), Ok(Step::Timed));
    assert!(run.timings().is_empty());
    assert_eq!(run.record(ok(5)), Ok(Step::Timed));
    assert_eq!(run.record(ok(7)), Ok(Step::Done));
    assert_eq!(run.timings(), &vec![5, 7]);
    assert_eq!(run.next(), Step::Done);
}

#[test]
fn no_warmup_goes_straight_to_timed_runs() {
    let mut run = BenchRun::new(&args("x", 1, 0, false));
    assert_eq!(run.next(), Step::Timed);
    assert_eq!(run.record(ok(9)), Ok(Step::Done));
    assert_eq!(run.timings(), &vec![9]);
}

#[test]
fn failure_stops_the_benchmark() {
    let mut run = BenchRun::new(&args("x", 3, 1, false));
    assert_eq!(run.record(ok(1)), Ok(Step::Timed));
    assert_eq!(run.record(ok(2)), Ok(Step::Timed));
    let failed = RunOutcome { elapsed_ns: 3, success: false, code: Some(2) };
    assert_eq!(run.record(failed), Err(BenchError::CommandFailed { code: 2 }));
    // nothing recorded for the failed run
    assert_eq!(run.timings(), &vec![2]);
    let killed = RunOutcome { elapsed_ns: 3, success: false, code: None };
    assert_eq!(run.record(killed), Err(BenchError::CommandFailed { code: -1 }));
}

#[test]
fn failure_in_warmup_stops_too() {
    let mut run = BenchRun::new(&args("x", 3, 2, false));
    let failed = RunOutcome { elapsed_ns: 3, success: false, code: Some(127) };
    assert_eq!(run.record(failed), Err(BenchError::CommandFailed { code: 127 }));
    assert_eq!(run.next(), Step::Warmup);
}

#[test]
fn ignored_failures_are_timed() {
    let mut run = BenchRun::new(&args("x", 2, 1, true));
    let failed = RunOutcome { elapsed_ns: 3, success: false, code: Some(1) };
    assert_eq!(run.record(failed), Ok(Step::Timed));
    assert_eq!(run.record(failed), Ok(Step::Timed));
    assert_eq!(run.record(ok(4)), Ok(Step::Done));
    assert_eq!(run.timings(), &vec![3, 4]);
}
