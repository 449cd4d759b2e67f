use std::collections::hash_map::DefaultHasher;
use std::hash::Hash;
use std::hash::Hasher;

use tsreduce::job::JobStatus;
use tsreduce::pass::DynHash;
use tsreduce::test::Hook;
use tsreduce::test::NoopHook;
use tsreduce::runner::ConfigError;
use tsreduce::runner::ResultAction;
use tsreduce::runner::Runner;
use tsreduce::runner::startup_verdict;
use tsreduce::runner::validate_config;
use tsreduce::snapshots::latest_snapshot;
use tsreduce::snapshots::snapshots_to_remove;
use tsreduce::stats::FileInfo;
use tsreduce::test::PollAction;
use tsreduce::test::PollEvent;
use tsreduce::test::TestResult;
use tsreduce::test::shell_poll_step;
use tsreduce::workers::WorkerGate;
use tsreduce::workers::restore_needed;

#[test]
fn ema_starts_at_midpoint_and_moves_by_tenths() {
    let mut f = FileInfo::new();
    assert_eq!(f.recent_success_rate, 127);
    f.record_success();
    assert_eq!(f.recent_success_rate as u32, (9u32 * 127 + 255) / 10);
    f.record_fail();
    assert_eq!(f.recent_success_rate as u32, (9u32 * 139) / 10);
}

#[test]
fn ema_stays_in_range_under_any_sequence() {
    let mut f = FileInfo::new();
    for _ in 0..100 {
        f.record_success();
    }
    // The success update has its fixpoints in 246 ..= 255.
    assert!(f.recent_success_rate >= 246);
    for _ in 0..200 {
        f.record_fail();
    }
    assert_eq!(f.recent_success_rate, 0);
    for i in 0..1000u32 {
        if i % 3 == 0 {
            f.record_success();
        } else {
            f.record_fail();
        }
        assert!((f.recent_success_rate as u32) <= 255);
    }
}

#[test]
fn scheduling_is_deterministic_for_a_fixed_seed() {
    let paths = vec![String::from("a.rs"), String::from("b.rs"), String::from("c.rs")];
    let hashes = vec![11u64, 22, 33];
    let mut r1 = Runner::new(paths.clone(), 42);
    let mut r2 = Runner::new(paths, 42);
    for _ in 0..20 {
        let (f1, p1, j1) = r1.pick_job(&hashes);
        let (f2, p2, j2) = r2.pick_job(&hashes);
        assert_eq!(f1, f2);
        assert_eq!(p1, p2);
        assert_eq!(j1.path, j2.path);
        assert_eq!(j1.pass_hash, j2.pass_hash);
        assert_eq!(j1.random_seed, j2.random_seed);
        assert_eq!(j1.recent_success_rate, j2.recent_success_rate);
    }
}

#[test]
fn results_update_statistics_and_promote_only_reductions() {
    let paths = vec![String::from("a.rs"), String::from("b.rs")];
    let mut r = Runner::new(paths, 1);
    let act = r.on_job_result(0, &JobStatus::Reduced(String::from("smaller")));
    assert_eq!(act, ResultAction::Promote);
    assert!(r.did_reduce_since_snapshot);
    assert_eq!(r.files.rate(0) as u32, (9u32 * 127 + 255) / 10);
    assert_eq!(r.files.rate(1), 127);

    let act = r.on_job_result(1, &JobStatus::DidNotReduce);
    assert_eq!(act, ResultAction::Redispatch);
    assert_eq!(r.files.rate(1) as u32, (9u32 * 127) / 10);

    let act = r.on_job_result(1, &JobStatus::PassFailed(String::from("no lines")));
    assert_eq!(act, ResultAction::Redispatch);
    assert_eq!(r.files.rate(1) as u32, (9u32 * 127) / 10);
}

#[test]
fn snapshots_fire_only_after_a_reduction() {
    let mut r = Runner::new(vec![String::from("a.rs")], 1);
    assert!(!r.should_snapshot(true));
    r.on_job_result(0, &JobStatus::Reduced(String::from("smaller")));
    assert!(!r.should_snapshot(false));
    assert!(r.should_snapshot(true));
    r.note_snapshot();
    assert!(!r.should_snapshot(true));
}

#[test]
fn worker_gate_tracks_one_job_in_flight() {
    let mut g = WorkerGate::new();
    assert!(!g.busy);
    g.submit();
    assert!(g.busy);
    g.complete();
    assert!(!g.busy);
    g.submit();
    assert!(g.busy);
}

#[test]
fn restoration_follows_every_non_reducing_outcome() {
    assert!(!restore_needed(&JobStatus::Reduced(String::from("x"))));
    assert!(restore_needed(&JobStatus::DidNotReduce));
    assert!(restore_needed(&JobStatus::PassFailed(String::from("x"))));
    assert!(restore_needed(&JobStatus::Interrupted));
}

#[test]
fn did_reduce_only_on_reduced() {
    assert!(JobStatus::Reduced(String::from("d")).did_reduce());
    assert!(!JobStatus::DidNotReduce.did_reduce());
    assert!(!JobStatus::PassFailed(String::from("d")).did_reduce());
    assert!(!JobStatus::Interrupted.did_reduce());
}

#[test]
fn config_validation_names_the_first_broken_rule() {
    assert_eq!(validate_config(0, 3, false, 0), Err(ConfigError::NoPasses));
    assert_eq!(validate_config(2, 0, false, 0), Err(ConfigError::NoFiles));
    assert_eq!(validate_config(2, 3, false, 4), Err(ConfigError::SnapshotDirNotEmpty));
    assert_eq!(validate_config(2, 3, true, 4), Ok(()));
    assert_eq!(validate_config(2, 3, false, 0), Ok(()));
}

#[test]
fn startup_needs_an_interesting_input() {
    assert!(startup_verdict(&TestResult::Interesting).is_ok());
    assert!(startup_verdict(&TestResult::NotInteresting).is_err());
    assert!(startup_verdict(&TestResult::Interrupted).is_err());
}

#[test]
fn latest_snapshot_is_the_lexicographic_maximum() {
    let names = vec![
        String::from("2024-01-02-00-00-00-000"),
        String::from("2025-03-01-10-00-00-500"),
        String::from("2023-12-31-23-59-59-999"),
    ];
    assert_eq!(latest_snapshot(&names), Some(1));
    let none: Vec<String> = Vec::new();
    assert_eq!(latest_snapshot(&none), None);
}

#[test]
fn retention_removes_the_oldest_until_the_cap() {
    let names = vec![
        String::from("2024-01-03"),
        String::from("2024-01-01"),
        String::from("2024-01-05"),
        String::from("2024-01-02"),
        String::from("2024-01-04"),
    ];
    let (removed, kept) = snapshots_to_remove(names, 2);
    assert_eq!(removed.len(), 3);
    assert_eq!(kept.len(), 2);
    let mut removed_sorted = removed.clone();
    removed_sorted.sort();
    assert_eq!(
        removed_sorted,
        vec![String::from("2024-01-01"), String::from("2024-01-02"), String::from("2024-01-03")]
    );
    let mut kept_sorted = kept.clone();
    kept_sorted.sort();
    assert_eq!(kept_sorted, vec![String::from("2024-01-04"), String::from("2024-01-05")]);
}

#[test]
fn retention_keeps_everything_under_the_cap() {
    let names = vec![String::from("a"), String::from("b")];
    let (removed, kept) = snapshots_to_remove(names.clone(), 5);
    assert!(removed.is_empty());
    assert_eq!(kept, names);
}

#[test]
fn crashed_worker_leaves_the_run_schedulable() {
    // A worker dies mid-job: its gate is dropped with the worker, a fresh
    // gate stands in, and the coordinator keeps dispatching jobs.
    let paths = vec![String::from("a.rs")];
    let hashes = vec![7u64];
    let mut r = Runner::new(paths, 9);
    let mut gate = WorkerGate::new();
    gate.submit();
    // The job never comes back; the worker is replaced.
    let mut gate = WorkerGate::new();
    let (idx, _pass, _job) = r.pick_job(&hashes);
    gate.submit();
    let act = r.on_job_result(idx, &JobStatus::DidNotReduce);
    gate.complete();
    assert_eq!(act, ResultAction::Redispatch);
}

#[test]
fn noop_hook_always_succeeds() {
    assert!(NoopHook.run(&String::from("/tmp")).is_ok());
}

#[test]
fn dyn_hash_matches_plain_hashing() {
    let mut h1 = DefaultHasher::new();
    let mut h2 = DefaultHasher::new();
    let v: u64 = 12345;
    v.dyn_hash(&mut h1);
    v.hash(&mut h2);
    assert_eq!(h1.finish(), h2.finish());
}

#[test]
fn file_table_lookup_finds_tracked_paths() {
    let r = Runner::new(vec![String::from("a.rs"), String::from("b.rs")], 3);
    assert_eq!(r.files.find(&String::from("b.rs")), Some(1));
    assert_eq!(r.files.find(&String::from("a.rs")), Some(0));
    assert_eq!(r.files.find(&String::from("c.rs")), None);
}

#[test]
fn poll_steps_follow_the_shell_test_protocol() {
    assert!(matches!(
        shell_poll_step(&PollEvent::Exited(true)),
        PollAction::Finish(TestResult::Interesting)
    ));
    assert!(matches!(
        shell_poll_step(&PollEvent::Exited(false)),
        PollAction::Finish(TestResult::NotInteresting)
    ));
    assert!(matches!(shell_poll_step(&PollEvent::TickElapsed), PollAction::KeepWaiting));
    assert!(matches!(shell_poll_step(&PollEvent::Cancelled), PollAction::KillChild));
    assert!(matches!(shell_poll_step(&PollEvent::ChannelClosed), PollAction::Fail));
}
