use rpal::job::{
    compare_outputs, exit_verdict, failure_verdict, run_job, run_job_check, run_job_pal, ChildError,
    Job, JobResult, JobStage, WaitStatus,
};
use rpal::pal::PalType;

fn job(expected: &[u8]) -> Job {
    Job { id: 7, input: b"in\n".to_vec(), expected_output: expected.to_vec(), actual_output: Vec::new() }
}

#[test]
fn wait_past_the_bound_is_a_timeout() {
    assert_eq!(exit_verdict(1, WaitStatus::Running), Err(ChildError::TimeOut(1)));
}

#[test]
fn nonzero_exit_code_is_invalid() {
    assert_eq!(exit_verdict(3, WaitStatus::Exited(Some(1))), Err(ChildError::InvalidExitCode(Some(1))));
}

#[test]
fn exit_by_signal_is_invalid_without_code() {
    assert_eq!(exit_verdict(3, WaitStatus::Exited(None)), Err(ChildError::InvalidExitCode(None)));
}

#[test]
fn exit_code_zero_is_success() {
    assert_eq!(exit_verdict(3, WaitStatus::Exited(Some(0))), Ok(()));
}

#[test]
fn failures_map_to_verdicts() {
    assert_eq!(failure_verdict(ChildError::TimeOut(2)), JobResult::TimeLimitExceed);
    assert_eq!(failure_verdict(ChildError::InvalidExitCode(None)), JobResult::RuntimeError);
    assert_eq!(failure_verdict(ChildError::InvalidExitCode(Some(3))), JobResult::RuntimeError);
    assert_eq!(
        failure_verdict(ChildError::SpawnError(String::from("nope"))),
        JobResult::OtherError(String::from("nope"))
    );
    assert_eq!(
        failure_verdict(ChildError::InputOutputError(String::from("pipe"))),
        JobResult::OtherError(String::from("pipe"))
    );
}

#[test]
fn trailing_newline_difference_is_accepted() {
    let (j, v) = run_job_check(job(b"42\n"), Ok(b"42".to_vec()));
    assert_eq!(v, JobResult::Accepted);
    assert_eq!(j.expected_output, b"42".to_vec());
    assert_eq!(j.actual_output, b"42".to_vec());
    assert_eq!(j.input, b"in\n".to_vec());
    assert_eq!(j.id, 7);
}

#[test]
fn trailing_whitespace_of_any_kind_is_ignored() {
    let (_, v) = run_job_check(job(b"a b \t\r\n\n"), Ok("a b\u{3000}".as_bytes().to_vec()));
    assert_eq!(v, JobResult::Accepted);
}

#[test]
fn other_differences_are_wrong_answers() {
    assert_eq!(run_job_check(job(b"42\n"), Ok(b"43\n".to_vec())).1, JobResult::WrongAnswer);
    assert_eq!(run_job_check(job(b"42\n"), Ok(b" 42\n".to_vec())).1, JobResult::WrongAnswer);
    assert_eq!(run_job_check(job(b"4 2"), Ok(b"42".to_vec())).1, JobResult::WrongAnswer);
}

#[test]
fn binary_outputs_compare_bytes() {
    let (j, v) = run_job_check(job(&[0xff, 0x0a]), Ok(vec![0xff, 0x0a]));
    assert_eq!(v, JobResult::Accepted);
    assert_eq!(j.actual_output, vec![0xff, 0x0a]);
    assert_eq!(run_job_check(job(&[0xff, 0x0a]), Ok(vec![0xff])).1, JobResult::WrongAnswer);
    let (j, v) = run_job_check(job(b"ok\n"), Ok(vec![0xfe, 0x0a]));
    assert_eq!(v, JobResult::WrongAnswer);
    assert_eq!(j.expected_output, b"ok".to_vec());
    assert_eq!(j.actual_output, vec![0xfe, 0x0a]);
}

#[test]
fn failed_run_keeps_the_job() {
    let (j, v) = run_job_check(job(b"x"), Err(ChildError::TimeOut(1)));
    assert_eq!(v, JobResult::TimeLimitExceed);
    assert_eq!(j, job(b"x"));
}

#[test]
fn compare_outputs_records_both_sides() {
    let (j, v) = compare_outputs(job(b""), b"ref  \n".to_vec(), b"ref".to_vec());
    assert_eq!(v, JobResult::Accepted);
    assert_eq!(j.expected_output, b"ref".to_vec());
}

#[test]
fn reference_stage_follows_a_passing_candidate() {
    match run_job_pal(JobStage::RunCandidate(job(b"")), Ok(b"7\n".to_vec())) {
        JobStage::RunReference(j, out) => {
            assert_eq!(j.id, 7);
            assert_eq!(out, b"7\n".to_vec());
        }
        _ => panic!("expected the reference stage"),
    }
}

#[test]
fn failing_candidate_decides_at_once() {
    match run_job(&PalType::Pal, JobStage::RunCandidate(job(b"")), Err(ChildError::InvalidExitCode(Some(2)))) {
        JobStage::Finished(_, v) => assert_eq!(v, JobResult::RuntimeError),
        _ => panic!("expected a verdict"),
    }
}

#[test]
fn failing_reference_is_reported_apart() {
    let stage = JobStage::RunReference(job(b""), b"1".to_vec());
    match run_job(&PalType::RandomPal, stage, Err(ChildError::TimeOut(5))) {
        JobStage::Finished(_, v) => assert_eq!(v, JobResult::StdProgramError(ChildError::TimeOut(5))),
        _ => panic!("expected a verdict"),
    }
}

#[test]
fn reference_output_is_the_expected_one() {
    let stage = JobStage::RunReference(job(b""), b"1 2\n".to_vec());
    match run_job(&PalType::Pal, stage, Ok(b"1 2".to_vec())) {
        JobStage::Finished(j, v) => {
            assert_eq!(v, JobResult::Accepted);
            assert_eq!(j.expected_output, b"1 2".to_vec());
        }
        _ => panic!("expected a verdict"),
    }
    let stage = JobStage::RunReference(job(b""), b"1 2\n".to_vec());
    match run_job(&PalType::Pal, stage, Ok(b"1 3".to_vec())) {
        JobStage::Finished(_, v) => assert_eq!(v, JobResult::WrongAnswer),
        _ => panic!("expected a verdict"),
    }
}

#[test]
fn check_kind_finishes_after_one_run() {
    match run_job(&PalType::Retest, JobStage::RunCandidate(job(b"x\n")), Ok(b"x".to_vec())) {
        JobStage::Finished(_, v) => assert_eq!(v, JobResult::Accepted),
        _ => panic!("expected a verdict"),
    }
}

#[test]
fn verdict_labels() {
    assert_eq!(JobResult::Accepted.label(), ".");
    assert_eq!(JobResult::Success.label(), "");
    assert_eq!(JobResult::WrongAnswer.label(), "WA");
    assert_eq!(JobResult::TimeLimitExceed.label(), "TLE");
    assert_eq!(JobResult::RuntimeError.label(), "REG");
    assert_eq!(JobResult::OtherError(String::from("x")).label(), "OE(x)");
    assert_eq!(
        JobResult::StdProgramError(ChildError::TimeOut(3)).label(),
        "STDERR(Child process haven't exited for 3 secs)"
    );
    assert!(JobResult::Accepted.is_passed());
    assert!(JobResult::Success.is_passed());
    assert!(!JobResult::WrongAnswer.is_passed());
}

#[test]
fn child_error_messages() {
    assert_eq!(ChildError::InvalidExitCode(Some(-11)).message(), "Child returned: -11");
    assert_eq!(ChildError::InvalidExitCode(Some(1)).message(), "Child returned: 1");
    assert_eq!(ChildError::InvalidExitCode(None).message(), "Child terminated by signal.");
    assert_eq!(ChildError::TimeOut(0).message(), "Child process haven't exited for 0 secs");
    assert_eq!(ChildError::SpawnError(String::from("e")).message(), "Failed to spawn child process: e");
}
