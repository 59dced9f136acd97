//! A run: its kind, its settings, and the passed and failed jobs it gathered.
use crate::job::{joined, Job, JobResult};
use vstd::prelude::*;
use vstd::set_lib::*;
use vstd::string::*;

verus! {

/// What a run compares against.
#[derive(Clone, Copy, Debug, PartialEq, Eq)]
pub enum PalType {
    /// Expected outputs are written in the test file.
    Check,
    /// Outputs of a reference program, on inputs listed or expanded from
    /// brackets.
    Pal,
    /// Outputs of a reference program, on inputs drawn at random from
    /// bracket templates.
    RandomPal,
    /// The jobs of an earlier run, compared as in `Check`.
    Retest,
}


impl PalType {
    /// The kind's name.
    pub fn name(&self) -> (r: String)
        ensures
            r@ == match self {
                PalType::Check => "Check"@,
                PalType::Pal => "Pal"@,
                PalType::RandomPal => "RandomPal"@,
                PalType::Retest => "Retest"@,
            },
    {
        match self {
            PalType::Check => String::from_str("Check"),
            PalType::Pal => String::from_str("Pal"),
            PalType::RandomPal => String::from_str("RandomPal"),
            PalType::Retest => String::from_str("Retest"),
        }
    }
}

/// Where a run finds its programs and puts what it leaves behind.
#[derive(Clone, Debug)]
pub struct PalInfo {
    pub prog: String,
    pub work_directory: String,
    pub out_directory: String,
    pub test_info_directory: String,
    pub job_store_filepath: String,
    /// The reference program, for the kinds that use one.
    pub std: Option<String>,
    pub timeout_sec: u64,
}

/// How to build the programs of a run.
#[derive(Clone, Debug)]
pub struct CompileConfig {
    pub compiler: String,
    pub args: String,
    pub source: String,
    pub std_source: Option<String>,
    pub work_directory: String,
}

impl CompileConfig {
    /// The compiler and its arguments, as shown to the user.
    pub fn command(&self) -> (r: String)
        ensures
            r@ == self.compiler@ + seq![' '] + self.args@,
    {
        let mut r = self.compiler.clone();
        r.append(" ");
        r.append(self.args.as_str());
        proof {
            reveal_strlit(" ");
        }
        r
    }
}

/// Why a run could not go on.
#[derive(Debug, PartialEq, Eq)]
pub enum PalError {
    ParseError(String),
    CompileError(String),
    RunTestError(String),
    IOError(String),
    LoadStoreError(String),
}

impl PalError {
    /// The error in words.
    pub fn message(&self) -> (r: String)
        ensures
            r@ == match self {
                PalError::ParseError(e) => "Cannot parse test config: "@ + e@,
                PalError::CompileError(e) => "CE: "@ + e@,
                PalError::IOError(e) => "I/O Error while running pal: "@ + e@,
                PalError::RunTestError(e) => "Error while preparing for test: "@ + e@,
                PalError::LoadStoreError(e) => "Error while loading store file: "@ + e@,
            },
    {
        match self {
            PalError::ParseError(e) => joined("Cannot parse test config: ", e.as_str()),
            PalError::CompileError(e) => joined("CE: ", e.as_str()),
            PalError::IOError(e) => joined("I/O Error while running pal: ", e.as_str()),
            PalError::RunTestError(e) => joined("Error while preparing for test: ", e.as_str()),
            PalError::LoadStoreError(e) => joined("Error while loading store file: ", e.as_str()),
        }
    }
}

/// A job filed after its run: the job, its verdict, and whether it has been
/// shown to the user.
pub type Filed = (Job, JobResult, bool);

/// The results of a run: the jobs that passed and those that failed, each
/// in the order their verdicts came, and the run's settings.
pub struct PalStore {
    pub job_passed: Vec<Filed>,
    pub job_failed: Vec<Filed>,
    pub pal_info: PalInfo,
}

/// Verdicts filed in the order they came: those that pass, not yet shown.
pub open spec fn passed_of(rs: Seq<(Job, JobResult)>) -> Seq<Filed>
    decreases rs.len(),
{
    if rs.len() == 0 {
        Seq::empty()
    } else if rs.last().1.spec_is_passed() {
        passed_of(rs.drop_last()).push((rs.last().0, rs.last().1, false))
    } else {
        passed_of(rs.drop_last())
    }
}

/// Verdicts filed in the order they came: those that fail, not yet shown.
pub open spec fn failed_of(rs: Seq<(Job, JobResult)>) -> Seq<Filed>
    decreases rs.len(),
{
    if rs.len() == 0 {
        Seq::empty()
    } else if !rs.last().1.spec_is_passed() {
        failed_of(rs.drop_last()).push((rs.last().0, rs.last().1, false))
    } else {
        failed_of(rs.drop_last())
    }
}

impl PalStore {
    /// A store with no job filed yet.
    pub fn new(pal_info: PalInfo) -> (r: PalStore)
        ensures
            r.job_passed@ == passed_of(Seq::empty()),
            r.job_failed@ == failed_of(Seq::empty()),
            r.pal_info == pal_info,
    {
        PalStore { job_passed: Vec::new(), job_failed: Vec::new(), pal_info }
    }

    /// Files one verdict, not yet shown, in the list it belongs to. Returns
    /// whether the run must stop handing out new jobs: after any verdict
    /// that does not pass.
    pub fn record(&mut self, job: Job, result: JobResult) -> (stop: bool)
        ensures
            stop == !result.spec_is_passed(),
            final(self).job_passed@ == if result.spec_is_passed() {
                old(self).job_passed@.push((job, result, false))
            } else {
                old(self).job_passed@
            },
            final(self).job_failed@ == if result.spec_is_passed() {
                old(self).job_failed@
            } else {
                old(self).job_failed@.push((job, result, false))
            },
            forall|rs: Seq<(Job, JobResult)>|
                old(self).job_passed@ == #[trigger] passed_of(rs) && old(self).job_failed@
                    == failed_of(rs) ==> final(self).job_passed@ == passed_of(rs.push((job, result)))
                    && final(self).job_failed@ == failed_of(rs.push((job, result))),
            final(self).pal_info == old(self).pal_info,
    {
        let passed = result.is_passed();
        let ghost entry = (job, result);
        if passed {
            self.job_passed.push((job, result, false));
        } else {
            self.job_failed.push((job, result, false));
        }
        proof {
            assert forall|rs: Seq<(Job, JobResult)>|
                old(self).job_passed@ == #[trigger] passed_of(rs) && old(self).job_failed@
                    == failed_of(rs) implies final(self).job_passed@ == passed_of(rs.push(entry))
                    && final(self).job_failed@ == failed_of(rs.push(entry)) by {
                assert(rs.push(entry).drop_last() =~= rs);
            }
        }
        !passed
    }
}


/// Each filed entry is one of the verdicts, in the list its verdict calls
/// for.
proof fn lemma_filed_from(rs: Seq<(Job, JobResult)>)
    ensures
        passed_of(rs).len() + failed_of(rs).len() == rs.len(),
        forall|p: int|
            0 <= p < passed_of(rs).len() ==> exists|i: int|
                0 <= i < rs.len() && rs[i].1.spec_is_passed() && #[trigger] passed_of(rs)[p] == (
                    rs[i].0,
                    rs[i].1,
                    false,
                ),
        forall|f: int|
            0 <= f < failed_of(rs).len() ==> exists|i: int|
                0 <= i < rs.len() && !rs[i].1.spec_is_passed() && #[trigger] failed_of(rs)[f] == (
                    rs[i].0,
                    rs[i].1,
                    false,
                ),
        forall|i: int|
            0 <= i < rs.len() && !rs[i].1.spec_is_passed() ==> failed_of(rs).contains(
                (#[trigger] rs[i].0, rs[i].1, false),
            ),
    decreases rs.len(),
{
    if rs.len() > 0 {
        let init = rs.drop_last();
        lemma_filed_from(init);
        assert forall|p: int| 0 <= p < passed_of(rs).len() implies exists|i: int|
            0 <= i < rs.len() && rs[i].1.spec_is_passed() && #[trigger] passed_of(rs)[p] == (
                rs[i].0,
                rs[i].1,
                false,
            ) by {
            if p < passed_of(init).len() {
                assert(passed_of(rs)[p] == passed_of(init)[p]);
                let i = choose|i: int|
                    0 <= i < init.len() && init[i].1.spec_is_passed() && #[trigger] passed_of(
                        init,
                    )[p] == (init[i].0, init[i].1, false);
                assert(rs[i] == init[i]);
                assert(0 <= i < rs.len());
            } else {
                assert(rs[rs.len() - 1] == rs.last());
                assert(passed_of(rs)[p] == (rs.last().0, rs.last().1, false));
            }
        }
        assert forall|f: int| 0 <= f < failed_of(rs).len() implies exists|i: int|
            0 <= i < rs.len() && !rs[i].1.spec_is_passed() && #[trigger] failed_of(rs)[f] == (
                rs[i].0,
                rs[i].1,
                false,
            ) by {
            if f < failed_of(init).len() {
                assert(failed_of(rs)[f] == failed_of(init)[f]);
                let i = choose|i: int|
                    0 <= i < init.len() && !init[i].1.spec_is_passed() && #[trigger] failed_of(
                        init,
                    )[f] == (init[i].0, init[i].1, false);
                assert(rs[i] == init[i]);
                assert(0 <= i < rs.len());
            } else {
                assert(rs[rs.len() - 1] == rs.last());
                assert(!rs.last().1.spec_is_passed());
                assert(failed_of(rs)[f] == (rs.last().0, rs.last().1, false));
            }
        }
        assert forall|i: int| 0 <= i < rs.len() && !rs[i].1.spec_is_passed() implies failed_of(
            rs,
        ).contains((#[trigger] rs[i].0, rs[i].1, false)) by {
            if i < init.len() {
                assert(init[i] == rs[i]);
                let x = choose|x: int|
                    0 <= x < failed_of(init).len() && failed_of(init)[x] == (init[i].0, init[i].1, false);
                assert(failed_of(rs)[x] == failed_of(init)[x]);
            } else {
                assert(failed_of(rs).last() == (rs[i].0, rs[i].1, false));
                assert(failed_of(rs)[failed_of(rs).len() - 1] == (rs[i].0, rs[i].1, false));
            }
        }
    }
}

/// Filing verdicts as they come splits them: every verdict lands in
/// exactly one of the two lists, and each that does not pass is in the
/// failed list. When the verdicts are for jobs with distinct ids below
/// `n`, the two lists hold at most `n` entries between them and no id is
/// in both.
pub proof fn lemma_filing_partitions(rs: Seq<(Job, JobResult)>, n: nat)
    requires
        forall|i: int, j: int| 0 <= i < rs.len() && 0 <= j < rs.len() && i != j ==> #[trigger] rs[i].0.id != #[trigger] rs[j].0.id,
        forall|i: int| 0 <= i < rs.len() ==> #[trigger] rs[i].0.id < n,
    ensures
        passed_of(rs).len() + failed_of(rs).len() == rs.len(),
        rs.len() <= n,
        forall|i: int|
            0 <= i < rs.len() && !rs[i].1.spec_is_passed() ==> failed_of(rs).contains(
                (#[trigger] rs[i].0, rs[i].1, false),
            ),
        forall|p: int, f: int|
            0 <= p < passed_of(rs).len() && 0 <= f < failed_of(rs).len() ==> #[trigger] passed_of(
                rs,
            )[p].0.id != #[trigger] failed_of(rs)[f].0.id,
{
    lemma_filed_from(rs);
    assert forall|p: int, f: int|
        0 <= p < passed_of(rs).len() && 0 <= f < failed_of(rs).len() implies #[trigger] passed_of(
        rs,
    )[p].0.id != #[trigger] failed_of(rs)[f].0.id by {
        let i = choose|i: int|
            0 <= i < rs.len() && rs[i].1.spec_is_passed() && #[trigger] passed_of(rs)[p] == (
                rs[i].0,
                rs[i].1,
                false,
            );
        let j = choose|j: int|
            0 <= j < rs.len() && !rs[j].1.spec_is_passed() && #[trigger] failed_of(rs)[f] == (
                rs[j].0,
                rs[j].1,
                false,
            );
        assert(i != j);
    }
    let ids = rs.map_values(|x: (Job, JobResult)| x.0.id as int);
    assert(ids.no_duplicates()) by {
        assert forall|i: int, j: int| 0 <= i < ids.len() && 0 <= j < ids.len() && i != j implies ids[i]
            != ids[j] by {
            assert(rs[i].0.id != rs[j].0.id);
        }
    }
    ids.unique_seq_to_set();
    lemma_int_range(0, n as int);
    assert(ids.to_set().subset_of(set_int_range(0, n as int))) by {
        assert forall|v: int| ids.to_set().contains(v) implies set_int_range(0, n as int).contains(v) by {
            let i = choose|i: int| 0 <= i < ids.len() && ids[i] == v;
            assert(rs[i].0.id < n);
        }
    }
    lemma_len_subset(ids.to_set(), set_int_range(0, n as int));
}


/// Whether a failed entry is to be shown for this kind: its tag is the
/// kind and it has not been shown yet.
pub open spec fn wanted(e: Filed, job_type: Seq<char>) -> bool {
    e.1.spec_label() == job_type && !e.2
}

/// The places of the first `num` entries wanted for this kind, in order.
pub open spec fn picks(es: Seq<Filed>, job_type: Seq<char>, num: nat) -> Seq<int>
    decreases es.len(),
{
    if es.len() == 0 {
        Seq::empty()
    } else {
        let p = picks(es.drop_last(), job_type, num);
        if p.len() < num && wanted(es.last(), job_type) {
            p.push(es.len() - 1)
        } else {
            p
        }
    }
}

/// How many entries carry this tag.
pub open spec fn count_label(es: Seq<Filed>, label: Seq<char>) -> nat
    decreases es.len(),
{
    if es.len() == 0 {
        0
    } else {
        count_label(es.drop_last(), label) + if es.last().1.spec_label() == label {
            1nat
        } else {
            0nat
        }
    }
}

impl Job {
    /// A job with the same id, input and outputs.
    pub fn duplicate(&self) -> (r: Job)
        ensures
            r.id == self.id,
            r.input@ == self.input@,
            r.expected_output@ == self.expected_output@,
            r.actual_output@ == self.actual_output@,
    {
        let r = Job {
            id: self.id,
            input: self.input.clone(),
            expected_output: self.expected_output.clone(),
            actual_output: self.actual_output.clone(),
        };
        assert(r.input@ =~= self.input@);
        assert(r.expected_output@ =~= self.expected_output@);
        assert(r.actual_output@ =~= self.actual_output@);
        r
    }
}

/// `r` holds copies of the jobs of the entries, in order.
pub open spec fn copies_of(r: Seq<Job>, es: Seq<Filed>) -> bool {
    &&& r.len() == es.len()
    &&& forall|k: int|
        0 <= k < r.len() ==> {
            &&& (#[trigger] r[k]).id == es[k].0.id
            &&& r[k].input@ == es[k].0.input@
            &&& r[k].expected_output@ == es[k].0.expected_output@
            &&& r[k].actual_output@ == es[k].0.actual_output@
        }
}

fn copy_jobs(es: &Vec<Filed>, r: &mut Vec<Job>)
    ensures
        final(r)@.len() == old(r)@.len() + es@.len(),
        final(r)@.take(old(r)@.len() as int) == old(r)@,
        copies_of(final(r)@.skip(old(r)@.len() as int), es@),
{
    let ghost start = old(r)@.len();
    let mut k: usize = 0;
    while k < es.len()
        invariant
            k <= es.len(),
            r@.len() == start + k,
            r@.take(start as int) == old(r)@,
            copies_of(r@.skip(start as int), es@.take(k as int)),
        decreases es.len() - k,
    {
        let ghost before = r@;
        r.push(es[k].0.duplicate());
        assert(r@.take(start as int) =~= before.take(start as int));
        assert(r@.skip(start as int) =~= before.skip(start as int).push(r@[start + k]));
        assert(es@.take(k + 1) =~= es@.take(k as int).push(es@[k as int]));
        k = k + 1;
    }
    assert(es@.take(es.len() as int) =~= es@);
}

impl PalStore {
    /// Marks as shown the first `num` failed entries tagged `job_type` that
    /// were not shown yet, and gives their places. Nothing else changes.
    pub fn mark_for_showing(&mut self, job_type: &String, num: usize) -> (r: Vec<usize>)
        ensures
            r@.map_values(|i: usize| i as int) == picks(old(self).job_failed@, job_type@, num as nat),
            final(self).job_passed@ == old(self).job_passed@,
            final(self).pal_info == old(self).pal_info,
            final(self).job_failed@.len() == old(self).job_failed@.len(),
            forall|k: int|
                0 <= k < old(self).job_failed@.len() ==> {
                    let (j, v, s) = old(self).job_failed@[k];
                    #[trigger] final(self).job_failed@[k] == (j, v, s || picks(
                        old(self).job_failed@,
                        job_type@,
                        num as nat,
                    ).contains(k))
                },
    {
        let ghost es = old(self).job_failed@;
        let mut r: Vec<usize> = Vec::new();
        let mut i: usize = 0;
        assert(es.take(0) =~= Seq::<Filed>::empty());
        assert(r@.map_values(|i: usize| i as int) =~= Seq::<int>::empty());
        while i < self.job_failed.len()
            invariant
                i <= self.job_failed@.len() == es.len(),
                self.job_passed@ == old(self).job_passed@,
                self.pal_info == old(self).pal_info,
                r@.map_values(|x: usize| x as int) == picks(es.take(i as int), job_type@, num as nat),
                forall|x: int| 0 <= x < r@.len() ==> 0 <= #[trigger] r@[x] < i,
                forall|k: int|
                    i <= k < es.len() ==> #[trigger] self.job_failed@[k] == es[k],
                forall|k: int|
                    0 <= k < i ==> {
                        let (j, v, s) = es[k];
                        #[trigger] self.job_failed@[k] == (j, v, s || picks(
                            es.take(i as int),
                            job_type@,
                            num as nat,
                        ).contains(k))
                    },
            decreases es.len() - i,
        {
            let ghost p = picks(es.take(i as int), job_type@, num as nat);
            assert(es.take(i + 1).drop_last() =~= es.take(i as int));
            assert(es.take(i + 1).last() == es[i as int]);
            let take = r.len() < num && !self.job_failed[i].2 && self.job_failed[i].1.label() == *job_type;
            let ghost p2 = picks(es.take(i + 1), job_type@, num as nat);
            if take {
                let ghost before = r@;
                self.job_failed[i].2 = true;
                r.push(i);
                assert(r@.map_values(|x: usize| x as int) =~= before.map_values(|x: usize| x as int).push(i as int));
                assert(p2 == p.push(i as int));
            } else {
                assert(p2 == p);
            }
            assert forall|k: int| 0 <= k < i + 1 implies {
                let (j, v, s) = es[k];
                #[trigger] self.job_failed@[k] == (j, v, s || p2.contains(k))
            } by {
                if k < i {
                    assert(!p.contains(i as int)) by {
                        if p.contains(i as int) {
                            let x = choose|x: int| 0 <= x < p.len() && p[x] == i;
                            assert(r@[x] < i);
                        }
                    }
                    assert(p.contains(k) == p2.contains(k)) by {
                        if take {
                            if p2.contains(k) {
                                let x = choose|x: int| 0 <= x < p2.len() && p2[x] == k;
                                if x < p.len() {
                                    assert(p[x] == k);
                                }
                            }
                            if p.contains(k) {
                                let x = choose|x: int| 0 <= x < p.len() && p[x] == k;
                                assert(p2[x] == k);
                            }
                        }
                    }
                } else {
                    if take {
                        assert(p2[p2.len() - 1] == i);
                    } else {
                        assert(!p2.contains(k)) by {
                            if p2.contains(k) {
                                let x = choose|x: int| 0 <= x < p2.len() && p2[x] == k;
                                assert(r@[x] < i);
                            }
                        }
                    }
                }
            }
            i = i + 1;
        }
        assert(es.take(es.len() as int) =~= es);
        r
    }

    /// Copies of the failed jobs, in order: what a rerun of the failures
    /// runs.
    pub fn failed_jobs(&self) -> (r: Vec<Job>)
        ensures
            copies_of(r@, self.job_failed@),
    {
        let mut r: Vec<Job> = Vec::new();
        copy_jobs(&self.job_failed, &mut r);
        assert(r@.skip(0) =~= r@);
        r
    }

    /// Copies of the passed jobs, then of the failed ones: what a full
    /// rerun runs.
    pub fn all_jobs(&self) -> (r: Vec<Job>)
        ensures
            copies_of(r@, self.job_passed@ + self.job_failed@),
    {
        let mut r: Vec<Job> = Vec::new();
        copy_jobs(&self.job_passed, &mut r);
        assert(r@.skip(0) =~= r@);
        let ghost first = r@;
        copy_jobs(&self.job_failed, &mut r);
        let ghost n = self.job_passed@.len();
        let ghost all = self.job_passed@ + self.job_failed@;
        assert forall|k: int| 0 <= k < r@.len() implies {
            &&& (#[trigger] r@[k]).id == all[k].0.id
            &&& r@[k].input@ == all[k].0.input@
            &&& r@[k].expected_output@ == all[k].0.expected_output@
            &&& r@[k].actual_output@ == all[k].0.actual_output@
        } by {
            if k < n {
                assert(r@[k] == r@.take(n as int)[k]);
                assert(first[k] == r@[k]);
            } else {
                assert(r@[k] == r@.skip(n as int)[k - n]);
            }
        }
        r
    }
}


/// `r` lists each tag of `es` once, in order of first appearance, with the
/// number of entries that carry it.
pub open spec fn kinds_of(r: Seq<(String, usize)>, es: Seq<Filed>) -> bool {
    &&& forall|k: int| 0 <= k < r.len() ==> (#[trigger] r[k]).1 == count_label(es, r[k].0@) && r[k].1 > 0
    &&& forall|k1: int, k2: int|
        0 <= k1 < r.len() && 0 <= k2 < r.len() && k1 != k2 ==> (#[trigger] r[k1]).0@ != (#[trigger] r[k2]).0@
    &&& forall|i: int|
        0 <= i < es.len() ==> exists|k: int| 0 <= k < r.len() && r[k].0@ == (#[trigger] es[i]).1.spec_label()
}

proof fn lemma_count_label_bound(es: Seq<Filed>, t: Seq<char>)
    ensures
        count_label(es, t) <= es.len(),
    decreases es.len(),
{
    if es.len() > 0 {
        lemma_count_label_bound(es.drop_last(), t);
    }
}

proof fn lemma_count_label_absent(es: Seq<Filed>, t: Seq<char>)
    requires
        forall|i: int| 0 <= i < es.len() ==> (#[trigger] es[i]).1.spec_label() != t,
    ensures
        count_label(es, t) == 0,
    decreases es.len(),
{
    if es.len() > 0 {
        let init = es.drop_last();
        assert forall|i: int| 0 <= i < init.len() implies (#[trigger] init[i]).1.spec_label() != t by {
            assert(init[i] == es[i]);
        }
        lemma_count_label_absent(init, t);
        assert(es.last() == es[es.len() - 1]);
    }
}

impl PalStore {
    /// The tags of the failed jobs with how many carry each.
    pub fn failed_kinds(&self) -> (r: Vec<(String, usize)>)
        ensures
            kinds_of(r@, self.job_failed@),
    {
        let ghost es = self.job_failed@;
        let mut r: Vec<(String, usize)> = Vec::new();
        let mut i: usize = 0;
        assert(es.take(0) =~= Seq::<Filed>::empty());
        while i < self.job_failed.len()
            invariant
                i <= es.len() == self.job_failed@.len(),
                es == self.job_failed@,
                kinds_of(r@, es.take(i as int)),
            decreases es.len() - i,
        {
            let label = self.job_failed[i].1.label();
            let ghost prev = es.take(i as int);
            let ghost next = es.take(i + 1);
            assert(next.drop_last() =~= prev);
            assert(next.last() == es[i as int]);
            let ghost before = r@;
            let mut k: usize = 0;
            while k < r.len()
                invariant
                    k <= r.len(),
                    r@ == before,
                    forall|x: int| 0 <= x < k ==> (#[trigger] r@[x]).0@ != label@,
                ensures
                    k <= r.len(),
                    r@ == before,
                    forall|x: int| 0 <= x < k ==> (#[trigger] r@[x]).0@ != label@,
                    k < r.len() ==> r@[k as int].0@ == label@,
                decreases r.len() - k,
            {
                if r[k].0 == label {
                    break;
                }
                k = k + 1;
            }
            if k < r.len() {
                assert(r@[k as int].0@ == label@);
                proof {
                    lemma_count_label_bound(prev, label@);
                }
                let c = r[k].1;
                r[k].1 = c + 1;
            } else {
                proof {
                    assert forall|x: int| 0 <= x < prev.len() implies (#[trigger] prev[x]).1.spec_label() != label@ by {
                        let kk = choose|kk: int| 0 <= kk < before.len() && before[kk].0@ == prev[x].1.spec_label();
                    }
                    lemma_count_label_absent(prev, label@);
                }
                r.push((label, 1));
            }
            assert forall|x: int| 0 <= x < r@.len() implies (#[trigger] r@[x]).1 == count_label(next, r@[x].0@) && r@[x].1 > 0 by {
                if x < before.len() {
                    assert(before[x].1 == count_label(prev, before[x].0@));
                }
            }
            assert forall|x1: int, x2: int|
                0 <= x1 < r@.len() && 0 <= x2 < r@.len() && x1 != x2 implies (#[trigger] r@[x1]).0@ != (#[trigger] r@[x2]).0@ by {
                if x1 < before.len() && x2 < before.len() {
                    assert(before[x1].0@ != before[x2].0@);
                }
            }
            assert forall|y: int| 0 <= y < next.len() implies exists|x: int| 0 <= x < r@.len() && r@[x].0@ == (#[trigger] next[y]).1.spec_label() by {
                if y < prev.len() {
                    assert(next[y] == prev[y]);
                    let x = choose|x: int| 0 <= x < before.len() && before[x].0@ == prev[y].1.spec_label();
                    assert(r@[x].0@ == before[x].0@);
                } else {
                    assert(next[y] == es[i as int]);
                    assert(r@[k as int].0@ == label@);
                }
            }
            i = i + 1;
        }
        assert(es.take(es.len() as int) =~= es);
        r
    }
}

} // verus!
