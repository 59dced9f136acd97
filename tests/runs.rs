use rpal::cli::{CLIError, Cli, Commands};
use rpal::job::{ChildError, Job, JobResult};
use rpal::pal::{CompileConfig, PalError, PalInfo, PalStore, PalType};
use rpal::paths::{
    build_job_store_filename, build_std_source_path, build_test_config_path, build_test_info_directory,
};
use rpal::pool::{Pull, WorkQueue};

fn info() -> PalInfo {
    PalInfo {
        prog: String::from("/w/out/a"),
        work_directory: String::from("/w"),
        out_directory: String::from("/w/out"),
        test_info_directory: String::from("/w/tests_info/a"),
        job_store_filepath: String::from("/d/a_store.json"),
        std: None,
        timeout_sec: 10,
    }
}

fn job(id: usize) -> Job {
    Job { id, input: vec![id as u8], expected_output: Vec::new(), actual_output: Vec::new() }
}

#[test]
fn first_failure_stops_and_lands_in_failed() {
    let mut store = PalStore::new(info());
    let arrivals = vec![
        (job(1), JobResult::Accepted),
        (job(0), JobResult::Accepted),
        (job(3), JobResult::WrongAnswer),
        (job(2), JobResult::Accepted),
    ];
    let mut stops = Vec::new();
    for (j, r) in arrivals {
        stops.push(store.record(j, r));
    }
    assert_eq!(stops, vec![false, false, true, false]);
    assert_eq!(store.job_failed.len(), 1);
    assert_eq!(store.job_failed[0].0.id, 3);
    assert!(!store.job_failed[0].2);
    let passed: Vec<usize> = store.job_passed.iter().map(|e| e.0.id).collect();
    assert_eq!(passed, vec![1, 0, 2]);
    assert!(store.job_passed.len() + store.job_failed.len() <= 5);
    for p in &store.job_passed {
        assert!(store.job_failed.iter().all(|f| f.0.id != p.0.id));
    }
}

#[test]
fn reference_failure_counts_as_failed() {
    let mut store = PalStore::new(info());
    assert!(store.record(job(0), JobResult::StdProgramError(ChildError::InvalidExitCode(None))));
    assert_eq!(store.job_failed.len(), 1);
    assert!(store.job_passed.is_empty());
}

fn failed_store() -> PalStore {
    let mut store = PalStore::new(info());
    store.record(job(0), JobResult::WrongAnswer);
    store.record(job(1), JobResult::TimeLimitExceed);
    store.record(job(2), JobResult::WrongAnswer);
    store.record(job(3), JobResult::WrongAnswer);
    store.record(job(4), JobResult::Accepted);
    store
}

#[test]
fn showing_picks_unshown_jobs_of_a_kind() {
    let mut store = failed_store();
    let wa = String::from("WA");
    assert_eq!(store.mark_for_showing(&wa, 2), vec![0, 2]);
    assert!(store.job_failed[0].2 && store.job_failed[2].2);
    assert!(!store.job_failed[1].2 && !store.job_failed[3].2);
    assert_eq!(store.mark_for_showing(&wa, 2), vec![3]);
    assert_eq!(store.mark_for_showing(&wa, 2), Vec::<usize>::new());
    assert_eq!(store.job_failed[0].0, job(0));
    assert_eq!(store.mark_for_showing(&String::from("TLE"), 0), Vec::<usize>::new());
    assert_eq!(store.mark_for_showing(&String::from("TLE"), 5), vec![1]);
}

#[test]
fn failed_kinds_are_counted() {
    let store = failed_store();
    assert_eq!(store.failed_kinds(), vec![(String::from("WA"), 3), (String::from("TLE"), 1)]);
}

#[test]
fn job_lists_for_reruns() {
    let store = failed_store();
    let failed: Vec<usize> = store.failed_jobs().iter().map(|j| j.id).collect();
    assert_eq!(failed, vec![0, 1, 2, 3]);
    let all: Vec<usize> = store.all_jobs().iter().map(|j| j.id).collect();
    assert_eq!(all, vec![4, 0, 1, 2, 3]);
    assert_eq!(store.all_jobs()[0], job(4));
}

#[test]
fn queue_hands_out_in_order_until_shutdown() {
    let mut q = WorkQueue::new();
    q.execute(10);
    q.execute(11);
    q.execute(12);
    q.close();
    assert!(matches!(q.pull(), Pull::Task(10)));
    assert!(matches!(q.pull(), Pull::Task(11)));
    let dropped: Vec<i32> = q.shutdown().into_iter().collect();
    assert_eq!(dropped, vec![12]);
    assert!(matches!(q.pull(), Pull::Exit));
    q.execute(13);
    assert!(matches!(q.pull(), Pull::Exit));
}

#[test]
fn queue_waits_until_closed() {
    let mut q: WorkQueue<u8> = WorkQueue::new();
    assert!(matches!(q.pull(), Pull::Wait));
    q.execute(1);
    assert!(matches!(q.pull(), Pull::Task(1)));
    assert!(matches!(q.pull(), Pull::Wait));
    q.close();
    assert!(matches!(q.pull(), Pull::Exit));
}

#[test]
fn command_line_shown_for_compiling() {
    let c = CompileConfig {
        compiler: String::from("gcc"),
        args: String::from("-Wall -lm"),
        source: String::from("a.c"),
        std_source: None,
        work_directory: String::from("/w"),
    };
    assert_eq!(c.command(), "gcc -Wall -lm");
}

#[test]
fn kind_names_and_errors() {
    assert_eq!(PalType::RandomPal.name(), "RandomPal");
    assert_eq!(PalType::Check.name(), "Check");
    assert_eq!(PalError::CompileError(String::from("x")).message(), "CE: x");
    assert_eq!(CLIError::InvalidArgument(String::from("y")).message(), "Argument invalid: y");
    assert_eq!(CLIError::PalError(String::from("z")).message(), "z");
}

#[test]
fn command_line_defaults() {
    let cli = Cli {
        compiler: None,
        compiler_args: None,
        timeout: None,
        command: Commands::Check { source: String::from("a.c"), test_config: None },
    };
    assert_eq!(cli.compiler_name(), "gcc");
    assert_eq!(cli.compiler_arguments(), "-Wall -Wextra -lm");
    assert_eq!(cli.timeout_sec(), 10);
    let cli = Cli { compiler: Some(String::from("clang")), compiler_args: Some(String::new()), timeout: Some(3), ..cli };
    assert_eq!(cli.compiler_name(), "clang");
    assert_eq!(cli.compiler_arguments(), "");
    assert_eq!(cli.timeout_sec(), 3);
}

#[test]
fn store_path_is_in_data_directory() {
    assert_eq!(build_job_store_filename("/src/foo.c", "/data").unwrap(), "/data/foo_store.json");
    assert!(matches!(build_job_store_filename("/", "/data"), Err(CLIError::InvalidArgument(_))));
}

#[test]
fn test_config_defaults_beside_the_source() {
    assert_eq!(build_test_config_path("/cwd", "/cwd/x/foo.c", &None).unwrap(), "/cwd/x/foo.test");
    assert_eq!(
        build_test_config_path("/cwd", "/cwd/x/foo.c", &Some(String::from("t/a.txt"))).unwrap(),
        "/cwd/t/a.txt"
    );
}

#[test]
fn std_source_defaults_from_the_source_name() {
    assert_eq!(build_std_source_path("/cwd", "/cwd/foo.c", &None).unwrap(), "/cwd/foo_std.c");
    assert_eq!(build_std_source_path("/cwd", "/cwd/foo", &None).unwrap(), "/cwd/foo_std");
    assert_eq!(
        build_std_source_path("/cwd", "/cwd/foo.c", &Some(String::from("ref.c"))).unwrap(),
        "/cwd/ref.c"
    );
}

#[test]
fn test_info_directory_beside_the_source() {
    assert_eq!(build_test_info_directory("/cwd", "src/foo.c").unwrap(), "/cwd/src/tests_info/foo");
}
