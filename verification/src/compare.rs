use vstd::prelude::*;

use crate::runner::{BenchError, RunArgs};
use crate::natural::Natural;
use crate::stats::{BigRatio, Ratio, Summary};

verus! {

/// Options of a comparison of two commands: the baseline and the challenger,
/// the runs of each, whether failures are accepted, labels and output choice.
#[derive(Debug)]
pub struct CmpArgs {
    pub cmd_a: String,
    pub cmd_b: String,
    pub runs: u32,
    pub warmup: u32,
    pub ignore_failure: bool,
    pub label_a: Option<String>,
    pub label_b: Option<String>,
    pub json: bool,
}

/// The statistics of one command under its label.
#[derive(Debug)]
pub struct LabelledSummary {
    pub label: String,
    pub summary: Summary,
}

/// The outcome of a comparison: both summaries, the ratio of the baseline's
/// mean to the challenger's and of their minima, and the label of the faster.
#[derive(Debug)]
pub struct CmpResult {
    pub baseline: LabelledSummary,
    pub challenger: LabelledSummary,
    pub speedup_mean: BigRatio,
    pub speedup_min: Ratio,
    pub faster: String,
}

/// `label`, or else `cmd`.
pub open spec fn label_or(label: Option<String>, cmd: String) -> Seq<char> {
    match label {
        Some(l) => l@,
        None => cmd@,
    }
}

/// Numerator of `mean(A) / mean(B)` for means `sa / na` and `sb / nb`:
/// `sa * nb`. Above 1 means B is faster.
pub open spec fn speedup_num(a: Summary, b: Summary) -> int {
    a.mean.num * b.mean.den
}

/// Denominator of `mean(A) / mean(B)`: `sb * na`, 0 when B's mean is 0.
pub open spec fn speedup_den(a: Summary, b: Summary) -> int {
    b.mean.num * a.mean.den
}

/// A quotient `num / den` of at least 1 (an undefined 0/0 counts as below).
pub open spec fn at_least_one(num: int, den: int) -> bool {
    num >= den && num > 0
}

fn label_or_command(label: &Option<String>, cmd: &String) -> (r: String)
    ensures
        r@ == label_or(*label, *cmd),
{
    match label {
        Some(l) => l.clone(),
        None => cmd.clone(),
    }
}

impl CmpArgs {
    /// Checks the options: at least one timed run per command.
    pub fn validate(&self) -> (r: Result<(), BenchError>)
        ensures
            self.runs == 0 ==> r == Err::<(), BenchError>(BenchError::ZeroRuns),
            self.runs != 0 ==> r == Ok::<(), BenchError>(()),
    {
        if self.runs == 0 {
            Err(BenchError::ZeroRuns)
        } else {
            Ok(())
        }
    }

    /// The baseline's label: the one given, else its command.
    pub fn baseline_label(&self) -> (r: String)
        ensures
            r@ == label_or(self.label_a, self.cmd_a),
            self.label_a is Some ==> r@ == self.label_a->0@,
            self.label_a is None ==> r@ == self.cmd_a@,
    {
        label_or_command(&self.label_a, &self.cmd_a)
    }

    /// The challenger's label: the one given, else its command.
    pub fn challenger_label(&self) -> (r: String)
        ensures
            r@ == label_or(self.label_b, self.cmd_b),
            self.label_b is Some ==> r@ == self.label_b->0@,
            self.label_b is None ==> r@ == self.cmd_b@,
    {
        label_or_command(&self.label_b, &self.cmd_b)
    }

    /// The options of the baseline's benchmark: its command and label, the
    /// shared run counts and failure policy, no JSON and no per-run listing.
    pub fn baseline_args(&self) -> (r: RunArgs)
        ensures
            r.command@ == self.cmd_a@,
            r.runs == self.runs,
            r.warmup == self.warmup,
            r.ignore_failure == self.ignore_failure,
            !r.json,
            !r.show_runs,
            r.label is Some && r.label->0@ == label_or(self.label_a, self.cmd_a),
    {
        RunArgs {
            command: self.cmd_a.clone(),
            runs: self.runs,
            warmup: self.warmup,
            ignore_failure: self.ignore_failure,
            json: false,
            label: Some(self.baseline_label()),
            show_runs: false,
        }
    }

    /// The options of the challenger's benchmark, as for the baseline.
    pub fn challenger_args(&self) -> (r: RunArgs)
        ensures
            r.command@ == self.cmd_b@,
            r.runs == self.runs,
            r.warmup == self.warmup,
            r.ignore_failure == self.ignore_failure,
            !r.json,
            !r.show_runs,
            r.label is Some && r.label->0@ == label_or(self.label_b, self.cmd_b),
    {
        RunArgs {
            command: self.cmd_b.clone(),
            runs: self.runs,
            warmup: self.warmup,
            ignore_failure: self.ignore_failure,
            json: false,
            label: Some(self.challenger_label()),
            show_runs: false,
        }
    }
}

/// Compares the baseline A with the challenger B: the speedup
/// `mean(A) / mean(B)` and `min(A) / min(B)`, and the faster of the two, which
/// is B when the speedup is at least 1 and A otherwise.
pub fn compare(baseline: LabelledSummary, challenger: LabelledSummary) -> (r: CmpResult)
    ensures
        r.speedup_mean.num@ == speedup_num(baseline.summary, challenger.summary),
        r.speedup_mean.den@ == speedup_den(baseline.summary, challenger.summary),
        r.speedup_mean.num@ == baseline.summary.mean.num * challenger.summary.mean.den,
        r.speedup_mean.den@ == challenger.summary.mean.num * baseline.summary.mean.den,
        r.speedup_min == (Ratio {
            num: baseline.summary.min as u128,
            den: challenger.summary.min as u128,
        }),
        r.faster@ == (if at_least_one(r.speedup_mean.num@ as int, r.speedup_mean.den@ as int) {
            challenger.label@
        } else {
            baseline.label@
        }),
        r.baseline == baseline,
        r.challenger == challenger,
        baseline.summary.mean.num * challenger.summary.mean.den >= challenger.summary.mean.num
            * baseline.summary.mean.den && baseline.summary.mean.num
            * challenger.summary.mean.den > 0 ==> r.faster@ == challenger.label@,
        !(baseline.summary.mean.num * challenger.summary.mean.den >= challenger.summary.mean.num
            * baseline.summary.mean.den && baseline.summary.mean.num
            * challenger.summary.mean.den > 0) ==> r.faster@ == baseline.label@,
{
    let num = Natural::from_u128(baseline.summary.mean.num).mul_u128(challenger.summary.mean.den);
    let den = Natural::from_u128(challenger.summary.mean.num).mul_u128(baseline.summary.mean.den);
    let speedup_min = Ratio {
        num: baseline.summary.min as u128,
        den: challenger.summary.min as u128,
    };
    let zero = Natural::from_u128(0);
    let faster = if den.le(&num) && !num.le(&zero) {
        challenger.label.clone()
    } else {
        baseline.label.clone()
    };
    CmpResult { baseline, challenger, speedup_mean: BigRatio { num, den }, speedup_min, faster }
}

impl CmpResult {
    /// How many times faster the faster command is on average: the speedup,
    /// or its reciprocal when the baseline is the faster.
    pub fn verdict_ratio(&self) -> (r: BigRatio)
        ensures
            at_least_one(self.speedup_mean.num@ as int, self.speedup_mean.den@ as int) ==> r.num@
                == self.speedup_mean.num@ && r.den@ == self.speedup_mean.den@,
            !at_least_one(self.speedup_mean.num@ as int, self.speedup_mean.den@ as int) ==> r.num@
                == self.speedup_mean.den@ && r.den@ == self.speedup_mean.num@,
            self.speedup_mean.num@ >= self.speedup_mean.den@ && self.speedup_mean.num@ > 0 ==> r.num@
                == self.speedup_mean.num@ && r.den@ == self.speedup_mean.den@,
            !(self.speedup_mean.num@ >= self.speedup_mean.den@ && self.speedup_mean.num@ > 0)
                ==> r.num@ == self.speedup_mean.den@ && r.den@ == self.speedup_mean.num@,
    {
        let s = &self.speedup_mean;
        let zero = Natural::from_u128(0);
        if s.den.le(&s.num) && !s.num.le(&zero) {
            BigRatio { num: s.num.copy(), den: s.den.copy() }
        } else {
            BigRatio { num: s.den.copy(), den: s.num.copy() }
        }
    }
}

/// The speedup is the quotient of the two means: with `mean(A) = sa / na`
/// and `mean(B) = sb / nb`, its numerator and denominator are `sa * nb` and
/// `sb * na`, so that `num / den == mean(A) / mean(B)` whenever B's mean is
/// not zero (cross-multiplied: `num * (sb * na) == den * (sa * nb)`).
pub proof fn lemma_speedup_is_ratio_of_means(a: Summary, b: Summary)
    ensures
        speedup_num(a, b) == a.mean.num * b.mean.den,
        speedup_den(a, b) == b.mean.num * a.mean.den,
        speedup_num(a, b) * (b.mean.num * a.mean.den) == speedup_den(a, b) * (a.mean.num
            * b.mean.den),
{
    assert((a.mean.num * b.mean.den) * (b.mean.num * a.mean.den) == (b.mean.num * a.mean.den) * (
    a.mean.num * b.mean.den)) by (nonlinear_arith);
}

/// Swapping baseline and challenger turns the speedup upside down, and when
/// the two means differ it names the other command as the faster.
pub proof fn lemma_swap_roles(a: Summary, b: Summary)
    ensures
        speedup_num(b, a) == speedup_den(a, b),
        speedup_den(b, a) == speedup_num(a, b),
        speedup_num(a, b) != speedup_den(a, b) ==> at_least_one(speedup_num(a, b), speedup_den(a, b))
            != at_least_one(speedup_num(b, a), speedup_den(b, a)),
{
    assert(speedup_num(a, b) >= 0 && speedup_den(a, b) >= 0) by (nonlinear_arith)
        requires
            a.mean.num >= 0,
            a.mean.den >= 0,
            b.mean.num >= 0,
            b.mean.den >= 0,
    ;
}

/// The command named faster has the smaller mean: a speedup of at least 1
/// means the baseline's mean `sa / na` is at least the challenger's `sb / nb`
/// and not zero.
pub proof fn lemma_faster_has_smaller_mean(a: Summary, b: Summary)
    requires
        a.well_formed(),
        b.well_formed(),
    ensures
        at_least_one(speedup_num(a, b), speedup_den(a, b)) <==> (a.mean.num * b.mean.den
            >= b.mean.num * a.mean.den && a.mean.num > 0),
{
    assert(a.mean.num * b.mean.den > 0 <==> a.mean.num > 0) by (nonlinear_arith)
        requires
            b.mean.den >= 1,
    ;
}

} // verus!
