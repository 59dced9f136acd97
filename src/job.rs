use crate::bracket::{decimal, push_decimal};
use crate::pal::PalType;
use crate::text::{decode_text, same_chars, string_of, trim_end, trim_end_exec, utf8_bytes};
use vstd::prelude::*;
use vstd::string::*;
use vstd::utf8::*;

verus! {

/// How a run of a child process went wrong.
#[derive(Debug, PartialEq, Eq)]
pub enum ChildError {
    /// The process had not exited after this many seconds and was killed.
    TimeOut(u64),
    /// The process could not be started.
    SpawnError(String),
    /// Talking to the process through its pipes failed.
    InputOutputError(String),
    /// The process exited with a non-zero code, or with none at all when a
    /// signal ended it.
    InvalidExitCode(Option<i32>),
}

/// One test case: an input and, once known, the expected and actual outputs.
#[derive(Clone, Debug, PartialEq, Eq)]
pub struct Job {
    pub id: usize,
    pub input: Vec<u8>,
    pub expected_output: Vec<u8>,
    pub actual_output: Vec<u8>,
}

/// The verdict on one job.
#[derive(Debug, PartialEq, Eq)]
pub enum JobResult {
    Success,
    Accepted,
    WrongAnswer,
    TimeLimitExceed,
    RuntimeError,
    OtherError(String),
    /// The reference program failed on the job's input.
    StdProgramError(ChildError),
}

impl JobResult {
    /// The verdicts that count as a pass.
    pub open spec fn spec_is_passed(&self) -> bool {
        self is Success || self is Accepted
    }

    pub fn is_passed(&self) -> (r: bool)
        ensures
            r == self.spec_is_passed(),
    {
        match self {
            JobResult::Accepted => true,
            JobResult::Success => true,
            _ => false,
        }
    }
}

/// How the wait for a child process ended.
pub enum WaitStatus {
    /// Still running when the time bound ran out.
    Running,
    /// Exited, with its exit code, or none when a signal ended it.
    Exited(Option<i32>),
}

/// The verdict on a child process once the wait is over: success only for
/// exit code 0.
pub open spec fn spec_exit_verdict(timeout_sec: u64, status: WaitStatus) -> Result<(), ChildError> {
    match status {
        WaitStatus::Running => Err(ChildError::TimeOut(timeout_sec)),
        WaitStatus::Exited(None) => Err(ChildError::InvalidExitCode(None)),
        WaitStatus::Exited(Some(code)) => if code == 0 {
            Ok(())
        } else {
            Err(ChildError::InvalidExitCode(Some(code)))
        },
    }
}

/// Classifies how the wait for a child process ended.
pub fn exit_verdict(timeout_sec: u64, status: WaitStatus) -> (r: Result<(), ChildError>)
    ensures
        r == spec_exit_verdict(timeout_sec, status),
{
    match status {
        WaitStatus::Running => Err(ChildError::TimeOut(timeout_sec)),
        WaitStatus::Exited(None) => Err(ChildError::InvalidExitCode(None)),
        WaitStatus::Exited(Some(code)) => if code == 0 {
            Ok(())
        } else {
            Err(ChildError::InvalidExitCode(Some(code)))
        },
    }
}

/// The verdict on a job whose candidate program failed.
pub open spec fn spec_failure_verdict(e: ChildError) -> JobResult {
    match e {
        ChildError::TimeOut(_) => JobResult::TimeLimitExceed,
        ChildError::InputOutputError(m) => JobResult::OtherError(m),
        ChildError::InvalidExitCode(_) => JobResult::RuntimeError,
        ChildError::SpawnError(m) => JobResult::OtherError(m),
    }
}

pub fn failure_verdict(e: ChildError) -> (r: JobResult)
    ensures
        r == spec_failure_verdict(e),
{
    match e {
        ChildError::TimeOut(_) => JobResult::TimeLimitExceed,
        ChildError::InputOutputError(m) => JobResult::OtherError(m),
        ChildError::InvalidExitCode(_) => JobResult::RuntimeError,
        ChildError::SpawnError(m) => JobResult::OtherError(m),
    }
}

/// Whether an actual output matches the expected one: two texts match
/// when they are equal once trailing whitespace is dropped; otherwise the
/// bytes must be equal.
pub open spec fn outputs_match(expected: Seq<u8>, actual: Seq<u8>) -> bool {
    if valid_utf8(expected) && valid_utf8(actual) {
        trim_end(decode_utf8(expected)) == trim_end(decode_utf8(actual))
    } else {
        expected == actual
    }
}

/// The expected output as kept on a compared job: a text without its
/// trailing whitespace, other bytes as they were.
pub open spec fn kept_expected(expected: Seq<u8>) -> Seq<u8> {
    if valid_utf8(expected) {
        encode_utf8(trim_end(decode_utf8(expected)))
    } else {
        expected
    }
}

/// The actual output as kept on a compared job: trimmed when both sides
/// are texts.
pub open spec fn kept_actual(expected: Seq<u8>, actual: Seq<u8>) -> Seq<u8> {
    if valid_utf8(expected) && valid_utf8(actual) {
        encode_utf8(trim_end(decode_utf8(actual)))
    } else {
        actual
    }
}

fn same_bytes(a: &Vec<u8>, b: &Vec<u8>) -> (r: bool)
    ensures
        r == (a@ == b@),
{
    if a.len() != b.len() {
        return false;
    }
    let mut k: usize = 0;
    while k < a.len()
        invariant
            k <= a.len() == b.len(),
            a@.take(k as int) == b@.take(k as int),
        decreases a.len() - k,
    {
        if a[k] != b[k] {
            assert(a@[k as int] != b@[k as int]);
            return false;
        }
        assert(a@.take(k + 1) =~= a@.take(k as int).push(a@[k as int]));
        assert(b@.take(k + 1) =~= b@.take(k as int).push(b@[k as int]));
        k = k + 1;
    }
    assert(a@.take(a.len() as int) =~= a@);
    assert(b@.take(b.len() as int) =~= b@);
    true
}

/// `r` is `job` compared: same id and input, both outputs kept, and
/// `Accepted` exactly when they match.
pub open spec fn compared(job: Job, expected: Seq<u8>, actual: Seq<u8>, r: (Job, JobResult)) -> bool {
    &&& r.0.id == job.id
    &&& r.0.input@ == job.input@
    &&& r.0.expected_output@ == kept_expected(expected)
    &&& r.0.actual_output@ == kept_actual(expected, actual)
    &&& r.1 == if outputs_match(expected, actual) {
        JobResult::Accepted
    } else {
        JobResult::WrongAnswer
    }
}

/// `r` is the verdict on `job` against its written expected output.
pub open spec fn checked(job: Job, outcome: Result<Vec<u8>, ChildError>, r: (Job, JobResult)) -> bool {
    match outcome {
        Err(e) => r == (job, spec_failure_verdict(e)),
        Ok(out) => compared(job, job.expected_output@, out@, r),
    }
}

/// Compares an actual output with the expected one and records both on
/// the job, which keeps its id and input.
pub fn compare_outputs(job: Job, expected: Vec<u8>, actual: Vec<u8>) -> (r: (Job, JobResult))
    ensures
        compared(job, expected@, actual@, r),
{
    let mut job = job;
    match decode_text(&expected) {
        Some(e) => {
            let e_trim = trim_end_exec(&e);
            job.expected_output = utf8_bytes(&e_trim);
            match decode_text(&actual) {
                Some(a) => {
                    let a_trim = trim_end_exec(&a);
                    job.actual_output = utf8_bytes(&a_trim);
                    if same_chars(&e_trim, &a_trim) {
                        (job, JobResult::Accepted)
                    } else {
                        (job, JobResult::WrongAnswer)
                    }
                },
                None => {
                    let equal = same_bytes(&expected, &actual);
                    job.actual_output = actual;
                    if equal {
                        (job, JobResult::Accepted)
                    } else {
                        (job, JobResult::WrongAnswer)
                    }
                },
            }
        },
        None => {
            let equal = same_bytes(&expected, &actual);
            job.expected_output = expected;
            job.actual_output = actual;
            if equal {
                (job, JobResult::Accepted)
            } else {
                (job, JobResult::WrongAnswer)
            }
        },
    }
}

/// The verdict on a job compared with its written expected output, given
/// how the candidate's run went.
pub fn run_job_check(job: Job, outcome: Result<Vec<u8>, ChildError>) -> (r: (Job, JobResult))
    ensures
        checked(job, outcome, r),
{
    match outcome {
        Err(e) => (job, failure_verdict(e)),
        Ok(out) => {
            let Job { id, input, expected_output, actual_output } = job;
            compare_outputs(Job { id, input, expected_output: Vec::new(), actual_output }, expected_output, out)
        },
    }
}


/// Where a job stands between runs of its programs.
pub enum JobStage {
    /// The candidate program is to be run on the job's input.
    RunCandidate(Job),
    /// The reference program is to be run on the job's input; the
    /// candidate's output is kept.
    RunReference(Job, Vec<u8>),
    /// The job has its verdict.
    Finished(Job, JobResult),
}

/// The next stage of a job compared with a reference program, given how
/// the run that its stage asked for went. A failing candidate decides the
/// job at once; a failing reference program gives `StdProgramError`.
pub open spec fn pal_step(stage: JobStage, outcome: Result<Vec<u8>, ChildError>, r: JobStage) -> bool {
        match (stage, outcome) {
            (JobStage::RunCandidate(job), Err(e)) => r == JobStage::Finished(
                job,
                spec_failure_verdict(e),
            ),
            (JobStage::RunCandidate(job), Ok(out)) => r == JobStage::RunReference(job, out),
            (JobStage::RunReference(job, _), Err(e)) => r == JobStage::Finished(
                job,
                JobResult::StdProgramError(e),
            ),
            (JobStage::RunReference(job, out), Ok(reference)) => r matches JobStage::Finished(
                j,
                v,
            ) && compared(job, reference@, out@, (j, v)),
            _ => false,
        }
}

pub fn run_job_pal(stage: JobStage, outcome: Result<Vec<u8>, ChildError>) -> (r: JobStage)
    requires
        !(stage is Finished),
    ensures
        pal_step(stage, outcome, r),
{
    match (stage, outcome) {
        (JobStage::RunCandidate(job), Err(e)) => JobStage::Finished(job, failure_verdict(e)),
        (JobStage::RunCandidate(job), Ok(out)) => JobStage::RunReference(job, out),
        (JobStage::RunReference(job, _), Err(e)) => JobStage::Finished(
            job,
            JobResult::StdProgramError(e),
        ),
        (JobStage::RunReference(job, out), Ok(reference)) => {
            let (j, v) = compare_outputs(job, reference, out);
            JobStage::Finished(j, v)
        },
        (JobStage::Finished(job, v), _) => JobStage::Finished(job, v),
    }
}

/// Advances a job by one program run: the run that its stage asked for
/// went as `outcome`. Check and retest runs compare with the written
/// expected output after the candidate's run; the other kinds run the
/// reference program too.
pub fn run_job(pal_type: &PalType, stage: JobStage, outcome: Result<Vec<u8>, ChildError>) -> (r: JobStage)
    requires
        stage is RunCandidate || ((pal_type is Pal || pal_type is RandomPal) && stage is RunReference),
    ensures
        match *pal_type {
            PalType::Check | PalType::Retest => match stage {
                JobStage::RunCandidate(job) => r matches JobStage::Finished(j, v) && checked(job, outcome, (j, v)),
                _ => false,
            },
            _ => pal_step(stage, outcome, r),
        },
{
    match pal_type {
        PalType::Check | PalType::Retest => match stage {
            JobStage::RunCandidate(job) => {
                let (j, v) = run_job_check(job, outcome);
                JobStage::Finished(j, v)
            },
            other => other,
        },
        _ => run_job_pal(stage, outcome),
    }
}


/// The decimal form of an integer, with a minus sign when it is negative.
pub open spec fn int_text(n: int) -> Seq<char> {
    if n < 0 {
        seq!['-'] + decimal((-n) as nat)
    } else {
        decimal(n as nat)
    }
}

/// The decimal form of `n` as a string.
pub fn u64_text(n: u64) -> (r: String)
    ensures
        r@ == int_text(n as int),
{
    let mut digits: Vec<char> = Vec::new();
    push_decimal(n, &mut digits);
    assert(digits@ =~= decimal(n as nat));
    string_of(&digits)
}

/// The decimal form of `n` as a string, with a minus sign when negative.
pub fn i32_text(n: i32) -> (r: String)
    ensures
        r@ == int_text(n as int),
{
    let mut digits: Vec<char> = Vec::new();
    if n < 0 {
        digits.push('-');
        let m: u64 = (-(n as i64)) as u64;
        push_decimal(m, &mut digits);
        assert(digits@ =~= seq!['-'] + decimal((-n) as nat));
    } else {
        push_decimal(n as u64, &mut digits);
        assert(digits@ =~= decimal(n as nat));
    }
    string_of(&digits)
}

/// `a` followed by `b`.
pub fn joined(a: &str, b: &str) -> (r: String)
    ensures
        r@ == a@ + b@,
{
    let mut r = String::from_str(a);
    r.append(b);
    r
}

impl ChildError {
    /// The failure in words.
    pub fn message(&self) -> (r: String)
        ensures
            r@ == child_message(*self),
    {
        match self {
            ChildError::TimeOut(t) => {
                let r = joined("Child process haven't exited for ", u64_text(*t).as_str());
                joined(r.as_str(), " secs")
            },
            ChildError::SpawnError(e) => joined("Failed to spawn child process: ", e.as_str()),
            ChildError::InputOutputError(e) => joined("Failed to talk to child process: ", e.as_str()),
            ChildError::InvalidExitCode(None) => String::from_str("Child terminated by signal."),
            ChildError::InvalidExitCode(Some(c)) => joined("Child returned: ", i32_text(*c).as_str()),
        }
    }
}

impl JobResult {
    /// The short tag of a verdict, as shown in progress lines and used to
    /// pick failed jobs by kind.
    pub open spec fn spec_label(&self) -> Seq<char> {
        match self {
            JobResult::Accepted => "."@,
            JobResult::Success => ""@,
            JobResult::WrongAnswer => "WA"@,
            JobResult::TimeLimitExceed => "TLE"@,
            JobResult::RuntimeError => "REG"@,
            JobResult::OtherError(s) => "OE("@ + s@ + ")"@,
            JobResult::StdProgramError(e) => "STDERR("@ + child_message(*e) + ")"@,
        }
    }

    pub fn label(&self) -> (r: String)
        ensures
            r@ == self.spec_label(),
    {
        match self {
            JobResult::Accepted => String::from_str("."),
            JobResult::Success => String::from_str(""),
            JobResult::WrongAnswer => String::from_str("WA"),
            JobResult::TimeLimitExceed => String::from_str("TLE"),
            JobResult::RuntimeError => String::from_str("REG"),
            JobResult::OtherError(s) => {
                let r = joined("OE(", s.as_str());
                joined(r.as_str(), ")")
            },
            JobResult::StdProgramError(e) => {
                let r = joined("STDERR(", e.message().as_str());
                joined(r.as_str(), ")")
            },
        }
    }
}

/// The words that `ChildError::message` gives.
pub open spec fn child_message(e: ChildError) -> Seq<char> {
    match e {
        ChildError::TimeOut(t) => "Child process haven't exited for "@ + int_text(t as int) + " secs"@,
        ChildError::SpawnError(m) => "Failed to spawn child process: "@ + m@,
        ChildError::InputOutputError(m) => "Failed to talk to child process: "@ + m@,
        ChildError::InvalidExitCode(None) => "Child terminated by signal."@,
        ChildError::InvalidExitCode(Some(c)) => "Child returned: "@ + int_text(c as int),
    }
}

} // verus!
