use benchkit::compare::{compare, CmpArgs, LabelledSummary};
use benchkit::runner::BenchError;
use benchkit::natural::Natural;
use benchkit::stats::{BigRatio, Ratio, Samples};

fn nat_value(n: &Natural) -> u128 {
    let limbs = n.limbs();
    let mut v: u128 = 0;
    for (i, l) in limbs.iter().enumerate() {
        if *l != 0 {
            assert!(i < 2, "value beyond 128 bits");
            v += (*l as u128) << (64 * i);
        }
    }
    v
}

fn big(r: &BigRatio) -> (u128, u128) {
    (nat_value(&r.num), nat_value(&r.den))
}

fn cmp_args(runs: u32) -> CmpArgs {
    CmpArgs {
        cmd_a: "grep -r TODO .".to_string(),
        cmd_b: "rg TODO .".to_string(),
        runs,
        warmup: 3,
        ignore_failure: false,
        label_a: None,
        label_b: Some("ripgrep".to_string()),
        json: false,
    }
}

fn labelled(label: &str, data: Vec<u64>) -> LabelledSummary {
    LabelledSummary { label: label.to_string(), summary: Samples::new(data).summarise() }
}

#[test]
fn cmp_validate() {
    assert_eq!(cmp_args(0).validate(), Err(BenchError::ZeroRuns));
    assert_eq!(cmp_args(10).validate(), Ok(()));
}

#[test]
fn cmp_labels_and_run_args() {
    let a = cmp_args(10);
    assert_eq!(a.baseline_label(), "grep -r TODO .");
    assert_eq!(a.challenger_label(), "ripgrep");
    let ra = a.baseline_args();
    assert_eq!(ra.command, "grep -r TODO .");
    assert_eq!(ra.label, Some("grep -r TODO .".to_string()));
    assert_eq!((ra.runs, ra.warmup, ra.ignore_failure, ra.json, ra.show_runs), (10, 3, false, false, false));
    let rb = a.challenger_args();
    assert_eq!(rb.command, "rg TODO .");
    assert_eq!(rb.label, Some("ripgrep".to_string()));
}

#[test]
fn challenger_faster() {
    let r = compare(labelled("grep", vec![400, 420]), labelled("ripgrep", vec![90, 88]));
    // mean(A) / mean(B) = 410 / 89
    assert_eq!(big(&r.speedup_mean), (820 * 2, 178 * 2));
    assert_eq!(r.speedup_min, Ratio { num: 400, den: 88 });
    assert_eq!(r.faster, "ripgrep");
    let (n, d) = big(&r.verdict_ratio());
    assert!((n as f64 / d as f64 - 410.0 / 89.0).abs() < 1e-12);
    assert_eq!(r.baseline.label, "grep");
    assert_eq!(r.challenger.label, "ripgrep");
}

#[test]
fn baseline_faster() {
    let r = compare(labelled("a", vec![10, 10]), labelled("b", vec![30, 30]));
    assert_eq!(r.faster, "a");
    // the verdict reports how many times faster a is: 3
    let (n, d) = big(&r.verdict_ratio());
    assert_eq!(n, 3 * d);
}

#[test]
fn equal_means_name_the_challenger() {
    let r = compare(labelled("a", vec![10, 20]), labelled("b", vec![15, 15]));
    assert_eq!(r.faster, "b");
}

#[test]
fn zero_means() {
    // 0 / 0 counts as below 1: the baseline is named
    let r = compare(labelled("a", vec![0]), labelled("b", vec![0]));
    assert_eq!(r.faster, "a");
    // x / 0 is above 1: the challenger is named
    let r = compare(labelled("a", vec![5]), labelled("b", vec![0]));
    assert_eq!(r.faster, "b");
}

#[test]
fn swapping_roles_flips_the_verdict() {
    let r1 = compare(labelled("a", vec![10, 12]), labelled("b", vec![30, 31, 29]));
    let r2 = compare(labelled("b", vec![30, 31, 29]), labelled("a", vec![10, 12]));
    assert_eq!(nat_value(&r1.speedup_mean.num), nat_value(&r2.speedup_mean.den));
    assert_eq!(nat_value(&r1.speedup_mean.den), nat_value(&r2.speedup_mean.num));
    assert_eq!(r1.faster, "a");
    assert_eq!(r2.faster, "a");
}

#[test]
fn large_means_compare_exactly() {
    // sums near 2^64 times counts: products need more than 128 bits
    let x = u64::MAX;
    let r = compare(labelled("a", vec![x, x, x]), labelled("b", vec![x - 1, x - 1]));
    assert_eq!(r.faster, "b");
    let r = compare(labelled("a", vec![x - 1, x - 1]), labelled("b", vec![x, x, x]));
    assert_eq!(r.faster, "a");
}
