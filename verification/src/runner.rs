use vstd::prelude::*;
use vstd::string::*;

verus! {

/// Options of one benchmark: the shell command, how many timed and warmup
/// runs, whether a non-zero exit status is accepted, output choices and the
/// label shown in the output.
#[derive(Debug)]
pub struct RunArgs {
    pub command: String,
    pub runs: u32,
    pub warmup: u32,
    pub ignore_failure: bool,
    pub json: bool,
    pub label: Option<String>,
    pub show_runs: bool,
}

/// Why a benchmark does not run or stops.
#[derive(Clone, Copy, Debug, PartialEq, Eq, Structural)]
pub enum BenchError {
    /// Fewer than one timed run was asked for.
    ZeroRuns,
    /// The command holds nothing but whitespace.
    EmptyCommand,
    /// The command exited unsuccessfully (with this code, or -1 when a signal
    /// ended it) and failures are not ignored.
    CommandFailed { code: i32 },
}

/// The characters with the Unicode `White_Space` property, which
/// `char::is_whitespace` and `str::trim` take for whitespace: U+0009 to
/// U+000D, U+0020, U+0085, U+00A0, U+1680, U+2000 to U+200A, U+2028, U+2029,
/// U+202F, U+205F and U+3000.
pub open spec fn is_white_space(c: char) -> bool {
    let u = c as u32;
    ||| 0x9 <= u <= 0xD
    ||| u == 0x20
    ||| u == 0x85
    ||| u == 0xA0
    ||| u == 0x1680
    ||| 0x2000 <= u <= 0x200A
    ||| u == 0x2028
    ||| u == 0x2029
    ||| u == 0x202F
    ||| u == 0x205F
    ||| u == 0x3000
}

/// Whether `c` is whitespace, as `char::is_whitespace` decides.
fn is_whitespace_char(c: char) -> (r: bool)
    ensures
        r == is_white_space(c),
{
    let u = c as u32;
    (0x9 <= u && u <= 0xD) || u == 0x20 || u == 0x85 || u == 0xA0 || u == 0x1680 || (0x2000 <= u
        && u <= 0x200A) || u == 0x2028 || u == 0x2029 || u == 0x202F || u == 0x205F || u == 0x3000
}

/// Every character of `s` is whitespace (so `s` trims to nothing).
pub open spec fn is_blank(s: Seq<char>) -> bool {
    forall|i: int| 0 <= i < s.len() ==> is_white_space(#[trigger] s[i])
}

/// A command is blank exactly when every character of it is whitespace; so
/// whitespace added at either end does not change whether it is blank.
pub proof fn lemma_blank_is_all_whitespace(s: Seq<char>, c: char)
    ensures
        is_blank(s) <==> (forall|i: int| 0 <= i < s.len() ==> is_white_space(#[trigger] s[i])),
        (exists|i: int| 0 <= i < s.len() && !is_white_space(#[trigger] s[i])) ==> !is_blank(s),
        is_white_space(c) ==> (is_blank(s.push(c)) <==> is_blank(s)),
        is_white_space(c) ==> (is_blank(seq![c] + s) <==> is_blank(s)),
{
    if is_white_space(c) {
        assert(is_blank(s.push(c)) ==> is_blank(s)) by {
            if is_blank(s.push(c)) {
                assert forall|i: int| 0 <= i < s.len() implies is_white_space(#[trigger] s[i]) by {
                    assert(s.push(c)[i] == s[i]);
                }
            }
        }
        assert(is_blank(s) ==> is_blank(s.push(c))) by {
            if is_blank(s) {
                assert forall|i: int| 0 <= i < s.push(c).len() implies is_white_space(
                    #[trigger] s.push(c)[i],
                ) by {
                    if i < s.len() {
                        assert(s.push(c)[i] == s[i]);
                    }
                }
            }
        }
        let t = seq![c] + s;
        assert(is_blank(t) ==> is_blank(s)) by {
            if is_blank(t) {
                assert forall|i: int| 0 <= i < s.len() implies is_white_space(#[trigger] s[i]) by {
                    assert(t[i + 1] == s[i]);
                }
            }
        }
        assert(is_blank(s) ==> is_blank(t)) by {
            if is_blank(s) {
                assert forall|i: int| 0 <= i < t.len() implies is_white_space(#[trigger] t[i]) by {
                    if i > 0 {
                        assert(t[i] == s[i - 1]);
                    }
                }
            }
        }
    }
}

/// Checks the options of the `run` command: at least one timed run, and a
/// command that is not blank.
pub fn validate(args: &RunArgs) -> (r: Result<(), BenchError>)
    ensures
        args.runs == 0 ==> r == Err::<(), BenchError>(BenchError::ZeroRuns),
        args.runs != 0 && is_blank(args.command@) ==> r == Err::<(), BenchError>(
            BenchError::EmptyCommand,
        ),
        args.runs != 0 && !is_blank(args.command@) ==> r == Ok::<(), BenchError>(()),
        args.runs != 0 && (exists|i: int|
            0 <= i < args.command@.len() && !is_white_space(#[trigger] args.command@[i])) ==> r
            == Ok::<(), BenchError>(()),
        args.runs != 0 && (forall|i: int|
            0 <= i < args.command@.len() ==> is_white_space(#[trigger] args.command@[i])) ==> r
            == Err::<(), BenchError>(BenchError::EmptyCommand),
{
    if args.runs == 0 {
        return Err(BenchError::ZeroRuns);
    }
    let s = args.command.as_str();
    let n = s.unicode_len();
    for i in 0..n
        invariant
            n == s@.len(),
            s@ == args.command@,
            args.runs != 0,
            forall|j: int| 0 <= j < i ==> is_white_space(#[trigger] s@[j]),
    {
        let c = s.get_char(i);
        if !is_whitespace_char(c) {
            return Ok(());
        }
    }
    Err(BenchError::EmptyCommand)
}

impl RunArgs {
    /// The label shown in the output: the one given, else the command itself.
    pub fn display_label(&self) -> (r: String)
        ensures
            r@ == (match self.label {
                Some(l) => l@,
                None => self.command@,
            }),
    {
        match &self.label {
            Some(l) => l.clone(),
            None => self.command.clone(),
        }
    }
}


/// What the benchmark loop does next.
#[derive(Clone, Copy, Debug, PartialEq, Eq, Structural)]
pub enum Step {
    /// Run the command once more and discard its timing.
    Warmup,
    /// Run the command once more and record its timing.
    Timed,
    /// All runs are done.
    Done,
}

/// What one run of the command gave: its wall-clock time in nanoseconds,
/// whether it exited successfully, and its exit code (`None` when a signal
/// ended it).
#[derive(Clone, Copy, Debug, PartialEq, Eq, Structural)]
pub struct RunOutcome {
    pub elapsed_ns: u64,
    pub success: bool,
    pub code: Option<i32>,
}

/// How many runs of each kind a benchmark makes, and whether failures stop it.
#[derive(Clone, Copy, Debug, PartialEq, Eq, Structural)]
pub struct RunPlan {
    pub warmup: u32,
    pub runs: u32,
    pub ignore_failure: bool,
}

/// How far a benchmark has come: warmup runs done, timings recorded.
#[verifier::ext_equal]
pub struct Progress {
    pub warmups_done: nat,
    pub timings: Seq<u64>,
}

/// The progress before any run.
pub open spec fn start() -> Progress {
    Progress { warmups_done: 0, timings: Seq::empty() }
}

/// The exit code reported for a failed run: the command's own, or -1.
pub open spec fn exit_code(o: RunOutcome) -> i32 {
    match o.code {
        Some(c) => c,
        None => -1i32,
    }
}

/// What comes next after `pr`: the warmup runs first, then the timed runs.
pub open spec fn next_step(plan: RunPlan, pr: Progress) -> Step {
    if pr.warmups_done < plan.warmup {
        Step::Warmup
    } else if pr.timings.len() < plan.runs {
        Step::Timed
    } else {
        Step::Done
    }
}

/// The progress after one more run with outcome `o`: a failure stops the
/// benchmark unless failures are ignored; a warmup run counts, a timed run
/// records its time.
pub open spec fn after_run(plan: RunPlan, pr: Progress, o: RunOutcome) -> Result<
    Progress,
    BenchError,
> {
    if !plan.ignore_failure && !o.success {
        Err(BenchError::CommandFailed { code: exit_code(o) })
    } else if pr.warmups_done < plan.warmup {
        Ok(Progress { warmups_done: pr.warmups_done + 1, timings: pr.timings })
    } else {
        Ok(Progress { warmups_done: pr.warmups_done, timings: pr.timings.push(o.elapsed_ns) })
    }
}

/// The progress after the runs with outcomes `os`, in order, from the start.
pub open spec fn after_runs(plan: RunPlan, os: Seq<RunOutcome>) -> Result<Progress, BenchError>
    decreases os.len(),
{
    if os.len() == 0 {
        Ok(start())
    } else {
        match after_runs(plan, os.drop_last()) {
            Ok(pr) => after_run(plan, pr, os.last()),
            Err(e) => Err(e),
        }
    }
}

/// The decisions of one benchmark: which run comes next, and what each
/// outcome does to the timings. The runs themselves happen outside.
pub struct BenchRun {
    plan: RunPlan,
    warmups_done: u32,
    timings: Vec<u64>,
}

impl BenchRun {
    #[verifier::type_invariant]
    spec fn inv(self) -> bool {
        &&& self.warmups_done <= self.plan.warmup
        &&& self.timings@.len() <= self.plan.runs
        &&& (self.warmups_done < self.plan.warmup ==> self.timings@.len() == 0)
    }

    /// The plan this benchmark follows.
    pub closed spec fn plan(&self) -> RunPlan {
        self.plan
    }

    /// The progress made so far.
    pub closed spec fn progress(&self) -> Progress {
        Progress { warmups_done: self.warmups_done as nat, timings: self.timings@ }
    }

    /// A benchmark of `args` that has made no run yet.
    pub fn new(args: &RunArgs) -> (r: Self)
        ensures
            r.plan() == (RunPlan {
                warmup: args.warmup,
                runs: args.runs,
                ignore_failure: args.ignore_failure,
            }),
            r.progress() == start(),
    {
        let r = BenchRun {
            plan: RunPlan {
                warmup: args.warmup,
                runs: args.runs,
                ignore_failure: args.ignore_failure,
            },
            warmups_done: 0,
            timings: Vec::new(),
        };
        assert(r.progress().timings =~= Seq::<u64>::empty());
        r
    }

    /// The run to make next.
    pub fn next(&self) -> (r: Step)
        ensures
            r == next_step(self.plan(), self.progress()),
    {
        if self.warmups_done < self.plan.warmup {
            Step::Warmup
        } else if self.timings.len() < self.plan.runs as usize {
            Step::Timed
        } else {
            Step::Done
        }
    }

    /// Takes the outcome of the run that `next` asked for; answers the run
    /// to make after it, or the error that stops the benchmark (and then
    /// leaves the progress as it was).
    pub fn record(&mut self, o: RunOutcome) -> (r: Result<Step, BenchError>)
        requires
            next_step(old(self).plan(), old(self).progress()) != Step::Done,
        ensures
            final(self).plan() == old(self).plan(),
            match after_run(old(self).plan(), old(self).progress(), o) {
                Ok(pr) => final(self).progress() == pr && r == Ok::<Step, BenchError>(
                    next_step(final(self).plan(), pr),
                ),
                Err(e) => final(self).progress() == old(self).progress() && r == Err::<
                    Step,
                    BenchError,
                >(e),
            },
            r is Err <==> (!old(self).plan().ignore_failure && !o.success),
            o.code is Some && r is Err ==> r == Err::<Step, BenchError>(
                BenchError::CommandFailed { code: o.code->0 },
            ),
            o.code is None && r is Err ==> r == Err::<Step, BenchError>(
                BenchError::CommandFailed { code: -1i32 },
            ),
            r is Ok && old(self).progress().warmups_done < old(self).plan().warmup
                ==> final(self).progress().timings == old(self).progress().timings,
            r is Ok && old(self).progress().warmups_done < old(self).plan().warmup
                ==> final(self).progress().warmups_done == old(self).progress().warmups_done + 1,
            r is Ok && old(self).progress().warmups_done >= old(self).plan().warmup
                ==> final(self).progress().timings == old(self).progress().timings.push(
                o.elapsed_ns,
            ),
    {
        proof {
            use_type_invariant(&*self);
        }
        if !self.plan.ignore_failure && !o.success {
            let code = match o.code {
                Some(c) => c,
                None => -1,
            };
            return Err(BenchError::CommandFailed { code });
        }
        if self.warmups_done < self.plan.warmup {
            self.warmups_done = self.warmups_done + 1;
        } else {
            let mut t: Vec<u64> = Vec::new();
            std::mem::swap(&mut t, &mut self.timings);
            t.push(o.elapsed_ns);
            self.timings = t;
        }
        Ok(self.next())
    }

    /// The timings recorded, in the order of the runs.
    pub fn timings(&self) -> (r: &Vec<u64>)
        ensures
            r@ == self.progress().timings,
    {
        &self.timings
    }
}


/// The timings of outcomes `os`.
pub open spec fn elapsed_of(os: Seq<RunOutcome>) -> Seq<u64> {
    os.map_values(|o: RunOutcome| o.elapsed_ns)
}

/// The progress after the first `k` of `warmup + runs` accepted runs.
pub open spec fn progress_after(plan: RunPlan, os: Seq<RunOutcome>, k: int) -> Progress {
    if k <= plan.warmup {
        Progress { warmups_done: k as nat, timings: Seq::empty() }
    } else {
        Progress {
            warmups_done: plan.warmup as nat,
            timings: elapsed_of(os.subrange(plan.warmup as int, k)),
        }
    }
}

proof fn lemma_progress_after(plan: RunPlan, os: Seq<RunOutcome>, k: int)
    requires
        0 <= k <= os.len(),
        os.len() <= plan.warmup + plan.runs,
        forall|i: int| 0 <= i < k ==> plan.ignore_failure || (#[trigger] os[i]).success,
    ensures
        after_runs(plan, os.take(k)) == Ok::<Progress, BenchError>(progress_after(plan, os, k)),
    decreases k,
{
    if k == 0 {
        assert(os.take(0) =~= Seq::<RunOutcome>::empty());
        assert(progress_after(plan, os, 0) =~= start());
    } else {
        lemma_progress_after(plan, os, k - 1);
        assert(os.take(k).drop_last() =~= os.take(k - 1));
        assert(os.take(k).last() == os[k - 1]);
        assert(plan.ignore_failure || os[k - 1].success);
        if k > plan.warmup {
            assert(elapsed_of(os.subrange(plan.warmup as int, k)) =~= elapsed_of(
                os.subrange(plan.warmup as int, k - 1),
            ).push(os[k - 1].elapsed_ns));
        }
        assert(after_runs(plan, os.take(k)) == after_run(
            plan,
            progress_after(plan, os, k - 1),
            os[k - 1],
        ));
        assert(after_run(plan, progress_after(plan, os, k - 1), os[k - 1])->Ok_0
            =~= progress_after(plan, os, k));
    }
}

/// Warmup runs come first and their timings are never counted: when every run
/// is accepted (it succeeds, or failures are ignored), `warmup + runs` runs
/// leave exactly the timings of the last `runs` of them, in order, and the
/// benchmark asks for another run until then and for none after.
pub proof fn lemma_warmup_never_counted(plan: RunPlan, os: Seq<RunOutcome>)
    requires
        os.len() == plan.warmup + plan.runs,
        forall|i: int| 0 <= i < os.len() ==> plan.ignore_failure || (#[trigger] os[i]).success,
    ensures
        after_runs(plan, os) == Ok::<Progress, BenchError>(
            Progress {
                warmups_done: plan.warmup as nat,
                timings: elapsed_of(os.skip(plan.warmup as int)),
            },
        ),
        next_step(plan, after_runs(plan, os)->Ok_0) == Step::Done,
        forall|k: int|
            0 <= k < os.len() ==> #[trigger] after_runs(plan, os.take(k)) is Ok && next_step(
                plan,
                after_runs(plan, os.take(k))->Ok_0,
            ) != Step::Done,
{
    let n = os.len() as int;
    lemma_progress_after(plan, os, n);
    assert(os.take(n) =~= os);
    assert(os.subrange(plan.warmup as int, n) =~= os.skip(plan.warmup as int));
    assert(progress_after(plan, os, n) =~= Progress {
        warmups_done: plan.warmup as nat,
        timings: elapsed_of(os.skip(plan.warmup as int)),
    });
    assert forall|k: int| 0 <= k < os.len() implies #[trigger] after_runs(plan, os.take(k)) is Ok
        && next_step(plan, after_runs(plan, os.take(k))->Ok_0) != Step::Done by {
        lemma_progress_after(plan, os, k);
    }
}

/// Unless failures are ignored, the first run that fails stops the benchmark
/// with that run's exit code (-1 when it has none).
pub proof fn lemma_failure_stops(plan: RunPlan, os: Seq<RunOutcome>)
    requires
        !plan.ignore_failure,
        1 <= os.len() <= plan.warmup + plan.runs,
        forall|i: int| 0 <= i < os.len() - 1 ==> (#[trigger] os[i]).success,
        !os.last().success,
    ensures
        after_runs(plan, os) == Err::<Progress, BenchError>(
            BenchError::CommandFailed { code: exit_code(os.last()) },
        ),
{
    let n = os.len() as int;
    lemma_progress_after(plan, os, n - 1);
    assert(os.drop_last() =~= os.take(n - 1));
}

} // verus!
