use benchkit::natural::Natural;
use benchkit::stats::{BigRatio, Ratio, Samples};

fn value(r: Ratio) -> f64 {
    r.num as f64 / r.den as f64
}

fn nat_value(n: &Natural) -> u128 {
    let limbs = n.limbs();
    let mut v: u128 = 0;
    for (i, l) in limbs.iter().enumerate() {
        if *l != 0 {
            assert!(i < 2, "value beyond 128 bits");
            v += (*l as u128) << (64 * i);
        }
    }
    v
}

fn big(r: &BigRatio) -> (u128, u128) {
    (nat_value(&r.num), nat_value(&r.den))
}

fn big_value(r: &BigRatio) -> f64 {
    let (n, d) = big(r);
    n as f64 / d as f64
}

#[test]
fn mean_of_known_sequence() {
    let s = Samples::new(vec![1, 2, 3, 4, 5]);
    assert!((value(s.mean()) - 3.0).abs() < 1e-10);
}

#[test]
fn stddev_population_one() {
    let s = Samples::new(vec![42]);
    let stddev = big_value(&s.variance()).sqrt();
    assert_eq!(stddev, 0.0);
}

#[test]
fn percentile_median() {
    let s = Samples::new(vec![10, 20, 30, 40, 50]);
    assert!((value(s.percentile(50, 1)) - 30.0).abs() < 1e-10);
}

#[test]
fn percentile_p99_small_set() {
    let s = Samples::new(vec![1, 2, 3, 4, 100]);
    // p99 should be very close to the outlier
    assert!(value(s.percentile(99, 1)) > 90.0);
}

#[test]
fn min_max() {
    let s = Samples::new(vec![5, 3, 9, 1, 7]);
    assert_eq!(s.min(), Some(1));
    assert_eq!(s.max(), Some(9));
}

#[test]
fn mean_is_exact_fraction() {
    let s = Samples::new(vec![1, 2]);
    assert_eq!(s.mean(), Ratio { num: 3, den: 2 });
}

#[test]
fn empty_samples() {
    let s = Samples::new(vec![]);
    assert_eq!(s.count(), 0);
    assert_eq!(s.mean(), Ratio { num: 0, den: 1 });
    assert_eq!(big(&s.variance()), (0, 1));
    assert_eq!(s.min(), None);
    assert_eq!(s.max(), None);
}

#[test]
fn variance_is_bessel_corrected() {
    // samples 2, 4, 4, 4, 5, 5, 7, 9: sum 40, sum of squares 232, n 8
    let s = Samples::new(vec![2, 4, 4, 4, 5, 5, 7, 9]);
    let v = s.variance();
    assert_eq!(big(&v), (8 * 232 - 40 * 40, 8 * 7));
    // 32 / 7 = 4.571428...
    assert!((big_value(&v) - 32.0 / 7.0).abs() < 1e-12);
}

#[test]
fn constant_samples_have_no_variance() {
    let s = Samples::new(vec![7, 7, 7, 7]);
    assert_eq!(nat_value(&s.variance().num), 0);
}

#[test]
fn percentile_interpolates_between_ranks() {
    // idx = 0.95 * 4 = 3.8: 4 + 0.8 * (100 - 4) = 80.8
    let s = Samples::new(vec![100, 1, 4, 3, 2]);
    assert_eq!(s.percentile(95, 1), Ratio { num: 8080, den: 100 });
    assert_eq!(s.percentile(99, 1), Ratio { num: 9616, den: 100 });
}

#[test]
fn percentile_endpoints_are_extremes() {
    let s = Samples::new(vec![5, 3, 9, 1, 7]);
    assert_eq!(s.percentile(0, 1), Ratio { num: 100, den: 100 });
    assert_eq!(s.percentile(100, 1), Ratio { num: 900, den: 100 });
}

#[test]
fn percentile_of_single_sample() {
    let s = Samples::new(vec![42]);
    assert_eq!(s.percentile(50, 1), Ratio { num: 4200, den: 100 });
}

#[test]
fn percentiles_grow_with_percent() {
    let s = Samples::new(vec![13, 2, 8, 21, 1, 5, 3, 1]);
    let mut last = 0u128;
    for p in 0..=100u32 {
        let v = s.percentile(p, 1).num;
        assert!(v >= last);
        last = v;
    }
}

#[test]
fn summary_is_independent_of_order() {
    let a = Samples::new(vec![30, 10, 20, 50, 40]).summarise();
    let b = Samples::new(vec![10, 20, 30, 40, 50]).summarise();
    assert_eq!(a.n, b.n);
    assert_eq!(a.mean, b.mean);
    assert_eq!(big(&a.variance), big(&b.variance));
    assert_eq!(a.min, b.min);
    assert_eq!(a.max, b.max);
    assert_eq!(a.p50, b.p50);
    assert_eq!(a.p95, b.p95);
    assert_eq!(a.p99, b.p99);
}

#[test]
fn summarise_fields() {
    let s = Samples::new(vec![10, 20, 30, 40, 50]).summarise();
    assert_eq!(s.n, 5);
    assert_eq!(s.mean, Ratio { num: 150, den: 5 });
    assert_eq!(s.min, 10);
    assert_eq!(s.max, 50);
    assert_eq!(s.p50, Ratio { num: 3000, den: 100 });
    // idx = 3.8 -> 40 + 0.8 * 10 = 48
    assert_eq!(s.p95, Ratio { num: 4800, den: 100 });
    // idx = 3.96 -> 40 + 0.96 * 10 = 49.6
    assert_eq!(s.p99, Ratio { num: 4960, den: 100 });
    // n * sum(x^2) - (sum x)^2 = 5 * 5500 - 22500 = 5000, over 5 * 4
    assert_eq!(big(&s.variance), (5000, 20));
}

#[test]
fn mean_lies_between_extremes() {
    let s = Samples::new(vec![4, 9, 2, 11]).summarise();
    let mean = value(s.mean);
    assert!(s.min as f64 <= mean && mean <= s.max as f64);
}

#[test]
fn high_variance_threshold() {
    // mean 100, stddev 0: quiet
    assert!(!Samples::new(vec![100, 100, 100]).summarise().high_variance());
    // 90 and 110: mean 100, stddev sqrt(200) = 14.1 -> rsd 14%
    assert!(Samples::new(vec![90, 110]).summarise().high_variance());
    // 95 and 105: stddev sqrt(50) = 7.07 -> rsd 7%
    assert!(!Samples::new(vec![95, 105]).summarise().high_variance());
    // a single sample has no deviation
    assert!(!Samples::new(vec![5]).summarise().high_variance());
    // all zero: mean 0 counts as rsd 0
    assert!(!Samples::new(vec![0, 0]).summarise().high_variance());
}

#[test]
fn high_variance_boundary_is_strict() {
    // 100 - d and 100 + d: stddev d * sqrt(2), so rsd 9.9% for d = 7 and
    // 11.3% for d = 8
    assert!(!Samples::new(vec![93, 107]).summarise().high_variance());
    assert!(Samples::new(vec![92, 108]).summarise().high_variance());
}

#[test]
fn count_keeps_every_sample() {
    let v: Vec<u64> = (0..1000).collect();
    assert_eq!(Samples::new(v.clone()).count(), v.len());
}

#[test]
fn many_long_runs_are_summarised() {
    // a million runs of 20 ms each: the sum of squares and the variance
    // numerator need more than 128 bits
    let mut v: Vec<u64> = vec![20_000_000; 1_000_000];
    v[0] = 20_000_100;
    let s = Samples::new(v).summarise();
    assert_eq!(s.n, 1_000_000);
    assert_eq!(s.mean, Ratio { num: 20_000_000u128 * 1_000_000 + 100, den: 1_000_000 });
    // n * sum(x^2) - (sum x)^2 = (n - 1) * 100^2
    assert_eq!(nat_value(&s.variance.num), 999_999 * 10_000);
    assert_eq!(s.min, 20_000_000);
    assert_eq!(s.max, 20_000_100);
    assert!(!s.high_variance());
}

#[test]
fn largest_samples_stay_exact() {
    let x = u64::MAX;
    let s = Samples::new(vec![x, x - 2, x, x - 2]);
    assert_eq!(s.mean(), Ratio { num: 4 * (x as u128) - 4, den: 4 });
    // sum of squared deviations 4, over n - 1 = 3; numerator n * 4 = 16
    let v = s.variance();
    assert_eq!(big(&v), (16, 12));
    assert_eq!(s.percentile(50, 1), Ratio { num: 100 * (x as u128) - 100, den: 100 });
}

#[test]
fn natural_arithmetic() {
    let a = Natural::from_u128(u128::MAX);
    let b = a.mul_u128(u128::MAX);
    // (2^128 - 1)^2 = 2^256 - 2^129 + 1
    let limbs: Vec<u64> = b.limbs().iter().copied().collect();
    assert_eq!(&limbs[..4], &[1, 0, u64::MAX - 1, u64::MAX]);
    let c = b.add(&Natural::from_u128(u128::MAX)).add(&a);
    // c = 2^256 - 1
    assert!(c.le(&c.copy()));
    assert!(!c.le(&b));
    assert!(b.le(&c));
    let d = c.sub(&b);
    assert!(d.equals(&Natural::from_u128(u128::MAX).mul_u64(2)));
    assert!(Natural::from_u128(5).mul_u64(7).equals(&Natural::from_u128(35)));
}

#[test]
fn fractional_percentile() {
    let s = Samples::new(vec![10, 20, 30, 40, 50]);
    // 12.5%: rank 0.125 * 4 = 0.5, halfway between 10 and 20
    assert_eq!(s.percentile(125, 10), Ratio { num: 15000, den: 1000 });
    // 99.9%: rank 3.996 -> 40 + 0.996 * 10 = 49.96
    let r = s.percentile(999, 10);
    assert!((value(r) - 49.96).abs() < 1e-9);
    // the same percent written over another denominator gives the same value
    assert_eq!(value(s.percentile(95, 1)), value(s.percentile(190, 2)));
}
