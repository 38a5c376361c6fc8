use vstd::prelude::*;
use vstd::relations::*;
use vstd::seq_lib::*;
use vstd::arithmetic::div_mod::{lemma_fundamental_div_mod, lemma_fundamental_div_mod_converse};

use crate::natural::Natural;

verus! {

broadcast use vstd::seq_lib::group_to_multiset_ensures;

/// The order in which samples are sorted: ascending.
pub open spec fn ascending() -> spec_fn(u64, u64) -> bool {
    |a: u64, b: u64| a <= b
}

/// The samples of `s` in ascending order.
pub open spec fn sorted_samples(s: Seq<u64>) -> Seq<u64> {
    s.sort_by(ascending())
}

/// `sorted_samples` is the one ascending rearrangement of the samples.
pub proof fn lemma_sorted_samples(s: Seq<u64>)
    ensures
        sorted_by(sorted_samples(s), ascending()),
        sorted_samples(s).to_multiset() == s.to_multiset(),
        sorted_samples(s).len() == s.len(),
        forall|t: Seq<u64>|
            sorted_by(t, ascending()) && t.to_multiset() == s.to_multiset() ==> t
                == sorted_samples(s),
{
    assert(total_ordering(ascending()));
    s.lemma_sort_by_ensures(ascending());
    to_multiset_len(s);
    to_multiset_len(sorted_samples(s));
    assert forall|t: Seq<u64>|
        sorted_by(t, ascending()) && t.to_multiset() == s.to_multiset() implies t
            == sorted_samples(s) by {
        lemma_sorted_unique(t, sorted_samples(s), ascending());
    }
}

/// Merges the ascending sequences `a` and `b` into one ascending sequence.
fn merge(a: &Vec<u64>, b: &Vec<u64>) -> (r: Vec<u64>)
    requires
        sorted_by(a@, ascending()),
        sorted_by(b@, ascending()),
    ensures
        sorted_by(r@, ascending()),
        r@.to_multiset() == a@.to_multiset().add(b@.to_multiset()),
{
    broadcast use vstd::multiset::group_multiset_axioms;

    let mut r: Vec<u64> = Vec::new();
    let mut i: usize = 0;
    let mut j: usize = 0;
    let na = a.len();
    let nb = b.len();
    assert(a@.take(0) =~= Seq::<u64>::empty());
    assert(b@.take(0) =~= Seq::<u64>::empty());
    assert(r@.to_multiset() =~= a@.take(0).to_multiset().add(b@.take(0).to_multiset()));
    while i < na || j < nb
        invariant
            na == a@.len(),
            nb == b@.len(),
            i <= na,
            j <= nb,
            sorted_by(a@, ascending()),
            sorted_by(b@, ascending()),
            sorted_by(r@, ascending()),
            r@.len() == i + j,
            r@.to_multiset() == a@.take(i as int).to_multiset().add(b@.take(j as int).to_multiset()),
            r@.len() > 0 && i < na ==> r@.last() <= a@[i as int],
            r@.len() > 0 && j < nb ==> r@.last() <= b@[j as int],
        decreases na + nb - i - j,
    {
        let take_a = j >= nb || (i < na && a[i] <= b[j]);
        let x = if take_a {
            a[i]
        } else {
            b[j]
        };
        let ghost old_r = r@;
        proof {
            assert forall|k: int| 0 <= k < old_r.len() implies old_r[k] <= x by {
                if k < old_r.len() - 1 {
                    assert(ascending()(old_r[k], old_r[old_r.len() - 1]));
                }
            }
        }
        r.push(x);
        proof {
            assert(sorted_by(r@, ascending())) by {
                assert forall|p: int, q: int| 0 <= p < q < r@.len() implies #[trigger] ascending()(
                    r@[p],
                    r@[q],
                ) by {
                    if q < old_r.len() {
                        assert(ascending()(old_r[p], old_r[q]));
                    }
                }
            }
        }
        if take_a {
            proof {
                assert(a@.take(i + 1) =~= a@.take(i as int).push(x));
                if i + 1 < na {
                    assert(ascending()(a@[i as int], a@[i + 1]));
                }
            }
            i = i + 1;
        } else {
            proof {
                assert(b@.take(j + 1) =~= b@.take(j as int).push(x));
                if j + 1 < nb {
                    assert(ascending()(b@[j as int], b@[j + 1]));
                }
            }
            j = j + 1;
        }
        proof {
            assert(r@.to_multiset() =~= a@.take(i as int).to_multiset().add(
                b@.take(j as int).to_multiset(),
            ));
        }
    }
    proof {
        assert(a@.take(na as int) =~= a@);
        assert(b@.take(nb as int) =~= b@);
    }
    r
}

/// The samples of `v` in ascending order, by merge sort.
fn merge_sort(v: &Vec<u64>) -> (r: Vec<u64>)
    ensures
        sorted_by(r@, ascending()),
        r@.to_multiset() == v@.to_multiset(),
    decreases v@.len(),
{
    let n = v.len();
    if n <= 1 {
        let mut r: Vec<u64> = Vec::new();
        if n == 1 {
            r.push(v[0]);
        }
        assert(r@ =~= v@);
        return r;
    }
    let mid = n / 2;
    let mut left: Vec<u64> = Vec::new();
    let mut right: Vec<u64> = Vec::new();
    for i in 0..mid
        invariant
            mid <= n,
            n == v@.len(),
            left@ =~= v@.take(i as int),
    {
        left.push(v[i]);
        assert(v@.take(i + 1) =~= v@.take(i as int).push(v@[i as int]));
    }
    for i in mid..n
        invariant
            mid <= n,
            n == v@.len(),
            right@ =~= v@.subrange(mid as int, i as int),
    {
        right.push(v[i]);
        assert(v@.subrange(mid as int, i + 1) =~= v@.subrange(mid as int, i as int).push(
            v@[i as int],
        ));
    }
    let sl = merge_sort(&left);
    let sr = merge_sort(&right);
    let r = merge(&sl, &sr);
    proof {
        assert(v@ =~= left@ + right@);
        lemma_multiset_commutative(left@, right@);
    }
    r
}

/// Returns the samples of `v` in ascending order.
fn sort_ascending(v: &Vec<u64>) -> (r: Vec<u64>)
    ensures
        r@ == sorted_samples(v@),
{
    let r = merge_sort(v);
    proof {
        lemma_sorted_samples(v@);
    }
    r
}

/// Sum of the samples.
pub open spec fn total(s: Seq<u64>) -> int
    decreases s.len(),
{
    if s.len() == 0 {
        0
    } else {
        total(s.drop_last()) + s.last()
    }
}

/// Sum of the squares of the samples.
pub open spec fn total_sq(s: Seq<u64>) -> int
    decreases s.len(),
{
    if s.len() == 0 {
        0
    } else {
        total_sq(s.drop_last()) + s.last() * s.last()
    }
}

/// Sum of the squared distances of the samples from `c`.
pub open spec fn total_sq_dev(s: Seq<u64>, c: int) -> int
    decreases s.len(),
{
    if s.len() == 0 {
        0
    } else {
        total_sq_dev(s.drop_last(), c) + (s.last() - c) * (s.last() - c)
    }
}

/// `n` times the sum of the squared deviations from the mean:
/// `n * sum(x^2) - (sum x)^2`.
pub open spec fn spread(s: Seq<u64>) -> int {
    s.len() * total_sq(s) - total(s) * total(s)
}

proof fn lemma_take_step(s: Seq<u64>, i: int)
    requires
        0 <= i < s.len(),
    ensures
        total(s.take(i + 1)) == total(s.take(i)) + s[i],
        total_sq(s.take(i + 1)) == total_sq(s.take(i)) + s[i] * s[i],
{
    assert(s.take(i + 1).drop_last() =~= s.take(i));
}

proof fn lemma_totals_nonneg(s: Seq<u64>)
    ensures
        0 <= total(s),
        0 <= total_sq(s),
        total_sq(s) <= total(s) * total(s),
    decreases s.len(),
{
    if s.len() > 0 {
        lemma_totals_nonneg(s.drop_last());
        let t = total(s.drop_last());
        let q = total_sq(s.drop_last());
        let x = s.last() as int;
        assert(q + x * x <= (t + x) * (t + x)) by (nonlinear_arith)
            requires
                0 <= t,
                0 <= x,
                q <= t * t,
        ;
    }
}

proof fn lemma_sq_dev(s: Seq<u64>, c: int)
    ensures
        total_sq_dev(s, c) == total_sq(s) - 2 * c * total(s) + s.len() * c * c,
        total_sq_dev(s, c) >= 0,
    decreases s.len(),
{
    if s.len() > 0 {
        lemma_sq_dev(s.drop_last(), c);
        let x = s.last() as int;
        let n = s.drop_last().len() as int;
        let t = total(s.drop_last());
        let q = total_sq(s.drop_last());
        let d = total_sq_dev(s.drop_last(), c);
        assert(d + (x - c) * (x - c) == (q + x * x) - 2 * c * (t + x) + (n + 1) * c * c
            && (x - c) * (x - c) >= 0) by (nonlinear_arith)
            requires
                d == q - 2 * c * t + n * c * c,
        ;
    }
}

/// The spread is never negative (Cauchy–Schwarz for sums).
proof fn lemma_spread_nonneg(s: Seq<u64>)
    ensures
        spread(s) >= 0,
    decreases s.len(),
{
    if s.len() > 0 {
        let p = s.drop_last();
        lemma_spread_nonneg(p);
        let x = s.last() as int;
        lemma_sq_dev(p, x);
        let n = p.len() as int;
        let t = total(p);
        let q = total_sq(p);
        assert((n + 1) * (q + x * x) - (t + x) * (t + x) == (n * q - t * t) + (q - 2 * x * t + n
            * x * x)) by (nonlinear_arith);
    }
}

/// An exact non-negative fraction `num / den`. A zero denominator stands for
/// an infinite (or, over a zero numerator, undefined) quotient.
#[derive(Clone, Copy, Debug, PartialEq, Eq, Structural)]
pub struct Ratio {
    pub num: u128,
    pub den: u128,
}

/// An exact non-negative fraction `num / den` of unbounded size. A zero
/// denominator stands for an infinite (or, over a zero numerator, undefined)
/// quotient.
#[derive(Debug)]
pub struct BigRatio {
    pub num: Natural,
    pub den: Natural,
}

/// Returns the sum of the samples and the sum of their squares.
fn sums(v: &Vec<u64>) -> (r: (u128, Natural))
    ensures
        r.0 == total(v@),
        r.1@ == total_sq(v@),
{
    let mut t: u128 = 0;
    let mut q = Natural::from_u128(0);
    let n = v.len();
    for i in 0..n
        invariant
            n == v.len(),
            t == total(v@.take(i as int)),
            t <= i * u64::MAX,
            q@ == total_sq(v@.take(i as int)),
    {
        proof {
            lemma_take_step(v@, i as int);
            assert(t + v@[i as int] <= (i + 1) * u64::MAX) by (nonlinear_arith)
                requires
                    t <= i * u64::MAX,
                    v@[i as int] <= u64::MAX,
            ;
            assert((i + 1) * u64::MAX <= u64::MAX * u64::MAX) by (nonlinear_arith)
                requires
                    i + 1 <= n <= u64::MAX,
            ;
            assert((v@[i as int] as int) * (v@[i as int] as int) <= u64::MAX * u64::MAX)
                by (nonlinear_arith);
        }
        let x = v[i] as u128;
        t = t + x;
        q = q.add(&Natural::from_u128(x * x));
    }
    proof {
        assert(v@.take(n as int) =~= v@);
    }
    (t, q)
}

/// The value of the ascending samples `t` at rank `k / d` (counted from 0),
/// interpolated linearly between the two neighbouring ranks, in `1/d` of a
/// nanosecond.
pub open spec fn interpolated(t: Seq<u64>, k: int, d: int) -> int {
    let lo = k / d;
    let r = k % d;
    let hi = if r == 0 {
        lo
    } else {
        lo + 1
    };
    d * t[lo] + r * (t[hi] - t[lo])
}

/// The value at percentile `pn / pd` (0 to 100) of the ascending samples
/// `t`, by linear interpolation between the two nearest ranks (the default
/// of numpy's `percentile`): rank `pn / pd / 100 * (n - 1)`, in units of
/// `1 / (100 * pd)` nanosecond.
pub open spec fn percentile_value(t: Seq<u64>, pn: int, pd: int) -> int {
    interpolated(t, pn * (t.len() - 1), 100 * pd)
}

/// `m` is the smallest sample of `s`.
pub open spec fn is_min(s: Seq<u64>, m: u64) -> bool {
    s.contains(m) && forall|i: int| 0 <= i < s.len() ==> m <= #[trigger] s[i]
}

/// `m` is the largest sample of `s`.
pub open spec fn is_max(s: Seq<u64>, m: u64) -> bool {
    s.contains(m) && forall|i: int| 0 <= i < s.len() ==> #[trigger] s[i] <= m
}

/// The arithmetic mean of `s` as a fraction (0 for no samples).
pub open spec fn is_mean(s: Seq<u64>, r: Ratio) -> bool {
    if s.len() == 0 {
        r.num == 0 && r.den == 1
    } else {
        r.num == total(s) && r.den == s.len()
    }
}

/// The sample variance of `s` (Bessel-corrected, `n - 1` denominator) as a
/// fraction: `(n * sum(x^2) - (sum x)^2) / (n * (n - 1))`; 0 for fewer than
/// two samples. The standard deviation is its square root.
pub open spec fn is_variance(s: Seq<u64>, r: BigRatio) -> bool {
    if s.len() < 2 {
        r.num@ == 0 && r.den@ == 1
    } else {
        r.num@ == spread(s) && r.den@ == s.len() * (s.len() - 1)
    }
}

/// Percentile `pn / pd` of `s` as a fraction of denominator `100 * pd`.
pub open spec fn is_percentile(s: Seq<u64>, pn: int, pd: int, r: Ratio) -> bool {
    r.num == percentile_value(sorted_samples(s), pn, pd) && r.den == 100 * pd
}

/// Timing samples of repeated runs, in nanoseconds, in the order in which they
/// were taken.
pub struct Samples {
    data: Vec<u64>,
}

impl View for Samples {
    type V = Seq<u64>;

    closed spec fn view(&self) -> Seq<u64> {
        self.data@
    }
}

impl Samples {
    /// Wraps timing samples taken in order.
    pub fn new(data: Vec<u64>) -> (r: Self)
        ensures
            r@ == data@,
    {
        Samples { data }
    }

    /// The samples in ascending order.
    fn sorted(&self) -> (r: Vec<u64>)
        ensures
            r@ == sorted_samples(self@),
    {
        sort_ascending(&self.data)
    }

    /// Number of samples.
    pub fn count(&self) -> (r: usize)
        ensures
            r == self@.len(),
    {
        self.data.len()
    }

    /// Arithmetic mean of the samples, exactly (0 when there are none).
    pub fn mean(&self) -> (r: Ratio)
        ensures
            is_mean(self@, r),
            self@.len() == 0 ==> r.num == 0 && r.den == 1,
            self@.len() > 0 ==> r.num == total(self@) && r.den == self@.len(),
    {
        let n = self.data.len();
        if n == 0 {
            return Ratio { num: 0, den: 1 };
        }
        let (t, _) = sums(&self.data);
        Ratio { num: t, den: n as u128 }
    }

    /// Sample variance (Bessel-corrected), exactly; 0 for fewer than two
    /// samples. The standard deviation is its square root.
    pub fn variance(&self) -> (r: BigRatio)
        ensures
            is_variance(self@, r),
            self@.len() < 2 ==> r.num@ == 0 && r.den@ == 1,
            self@.len() >= 2 ==> r.num@ == self@.len() * total_sq(self@) - total(self@) * total(
                self@,
            ),
            self@.len() >= 2 ==> r.den@ == self@.len() * (self@.len() - 1),
    {
        proof {
            lemma_totals_nonneg(self@);
            lemma_spread_nonneg(self@);
        }
        let n = self.data.len();
        if n < 2 {
            return BigRatio { num: Natural::from_u128(0), den: Natural::from_u128(1) };
        }
        let (t, q) = sums(&self.data);
        proof {
            assert((n as int) * ((n - 1) as int) <= u64::MAX * u64::MAX) by (nonlinear_arith)
                requires
                    2 <= n <= u64::MAX,
            ;
        }
        let nq = q.mul_u64(n as u64);
        let tt = Natural::from_u128(t).mul_u128(t);
        proof {
            assert(q@ * n == n * q@) by (nonlinear_arith);
        }
        let num = nq.sub(&tt);
        let den = Natural::from_u128((n as u128) * ((n - 1) as u128));
        BigRatio { num, den }
    }

    /// Smallest sample; `None` when there are none (the minimum of nothing,
    /// which a floating-point fold gives as positive infinity).
    pub fn min(&self) -> (r: Option<u64>)
        ensures
            match r {
                None => self@.len() == 0,
                Some(m) => is_min(self@, m),
            },
    {
        let n = self.data.len();
        if n == 0 {
            return None;
        }
        let mut m = self.data[0];
        let mut k: usize = 0;
        for i in 1..n
            invariant
                n == self.data@.len(),
                k < i,
                m == self.data@[k as int],
                forall|j: int| 0 <= j < i ==> m <= #[trigger] self.data@[j],
        {
            if self.data[i] < m {
                m = self.data[i];
                k = i;
            }
        }
        Some(m)
    }

    /// Largest sample; `None` when there are none (the maximum of nothing,
    /// which a floating-point fold gives as negative infinity).
    pub fn max(&self) -> (r: Option<u64>)
        ensures
            match r {
                None => self@.len() == 0,
                Some(m) => is_max(self@, m),
            },
    {
        let n = self.data.len();
        if n == 0 {
            return None;
        }
        let mut m = self.data[0];
        let mut k: usize = 0;
        for i in 1..n
            invariant
                n == self.data@.len(),
                k < i,
                m == self.data@[k as int],
                forall|j: int| 0 <= j < i ==> #[trigger] self.data@[j] <= m,
        {
            if self.data[i] > m {
                m = self.data[i];
                k = i;
            }
        }
        Some(m)
    }

    /// Percentile `p_num / p_den` (in percent, 0 to 100) by linear
    /// interpolation between the closest ranks, the default of numpy's
    /// `percentile`.
    pub fn percentile(&self, p_num: u32, p_den: u32) -> (r: Ratio)
        requires
            p_den >= 1,
            p_num <= 100 * p_den,
            self@.len() > 0,
        ensures
            is_percentile(self@, p_num as int, p_den as int, r),
    {
        let t = self.sorted();
        proof {
            lemma_sorted_samples(self@);
        }
        percentile_of_sorted(&t, p_num, p_den)
    }
}

/// Percentile `pn / pd` of the ascending samples `t`, in `1 / (100 * pd)`.
fn percentile_of_sorted(t: &Vec<u64>, pn: u32, pd: u32) -> (r: Ratio)
    requires
        pd >= 1,
        pn <= 100 * pd,
        t@.len() > 0,
        sorted_by(t@, ascending()),
    ensures
        r.num == percentile_value(t@, pn as int, pd as int),
        r.den == 100 * pd,
{
    let n = t.len();
    let d: u128 = 100 * (pd as u128);
    proof {
        assert((pn as int) * ((n - 1) as int) <= u32::MAX * u64::MAX) by (nonlinear_arith)
            requires
                0 <= pn <= u32::MAX,
                0 <= n - 1 <= u64::MAX,
        ;
    }
    let k: u128 = (pn as u128) * ((n - 1) as u128);
    let ghost kk = k as int;
    let ghost m = (n - 1) as int;
    let ghost dd = d as int;
    proof {
        lemma_fundamental_div_mod(kk, dd);
        assert(kk <= dd * m) by (nonlinear_arith)
            requires
                kk == pn * m,
                pn <= dd,
                m >= 0,
        ;
        assert(kk / dd <= m && (kk % dd != 0 ==> kk / dd < m)) by (nonlinear_arith)
            requires
                kk <= dd * m,
                kk == dd * (kk / dd) + kk % dd,
                0 <= kk % dd < dd,
                dd >= 1,
                m >= 0,
        ;
    }
    let lo = (k / d) as usize;
    let r = k % d;
    let hi = if r == 0 {
        lo
    } else {
        lo + 1
    };
    proof {
        assert(ascending()(t@[lo as int], t@[hi as int]));
    }
    let a = t[lo] as u128;
    let b = t[hi] as u128;
    proof {
        assert((d as int) * (a as int) + (r as int) * ((b - a) as int) <= 2 * (100 * u32::MAX)
            * u64::MAX) by (nonlinear_arith)
            requires
                0 <= r < d,
                d <= 100 * u32::MAX,
                0 <= a <= u64::MAX,
                0 <= b - a <= u64::MAX,
        ;
    }
    Ratio { num: d * a + r * (b - a), den: d }
}

/// All the statistics of one benchmark: sample count, mean, variance,
/// extremes and the 50th, 95th and 99th percentiles. Durations are in
/// nanoseconds; fractions are exact.
#[derive(Debug)]
pub struct Summary {
    pub n: usize,
    pub mean: Ratio,
    pub variance: BigRatio,
    pub min: u64,
    pub max: u64,
    pub p50: Ratio,
    pub p95: Ratio,
    pub p99: Ratio,
}

/// `r` holds the statistics of the non-empty samples `s`.
pub open spec fn summary_of(s: Seq<u64>, r: Summary) -> bool {
    &&& r.n == s.len()
    &&& is_mean(s, r.mean)
    &&& is_variance(s, r.variance)
    &&& is_min(s, r.min)
    &&& is_max(s, r.max)
    &&& is_percentile(s, 50, 1, r.p50)
    &&& is_percentile(s, 95, 1, r.p95)
    &&& is_percentile(s, 99, 1, r.p99)
}

/// The relative standard deviation `sqrt(var) / mean` of `n` samples of sum
/// `sum` and variance `var_num / (n * (n - 1))` is above 10%; it counts as 0
/// for fewer than two samples or a zero mean.
pub open spec fn rsd_above_ten_percent(n: int, sum: int, var_num: int) -> bool {
    n >= 2 && sum > 0 && 100 * var_num * n > (n - 1) * (sum * sum)
}

/// Sum of `(n * x - t)^2` over the samples `x` of `s`: `n^2` times the sum
/// of squared distances of the samples from `t / n`.
pub open spec fn total_scaled_sq_dev(s: Seq<u64>, n: int, t: int) -> int
    decreases s.len(),
{
    if s.len() == 0 {
        0
    } else {
        total_scaled_sq_dev(s.drop_last(), n, t) + (n * s.last() - t) * (n * s.last() - t)
    }
}

proof fn lemma_scaled_sq_dev(s: Seq<u64>, n: int, t: int)
    ensures
        total_scaled_sq_dev(s, n, t) == n * n * total_sq(s) - 2 * n * t * total(s) + s.len() * (t
            * t),
    decreases s.len(),
{
    if s.len() > 0 {
        lemma_scaled_sq_dev(s.drop_last(), n, t);
        let x = s.last() as int;
        let m = s.drop_last().len() as int;
        let q = total_sq(s.drop_last());
        let u = total(s.drop_last());
        let d = total_scaled_sq_dev(s.drop_last(), n, t);
        assert(d + (n * x - t) * (n * x - t) == n * n * (q + x * x) - 2 * n * t * (u + x) + (m + 1)
            * (t * t)) by (nonlinear_arith)
            requires
                d == n * n * q - 2 * n * t * u + m * (t * t),
        ;
    }
}

/// The variance numerator is `n` times the sum of squared deviations from
/// the mean: `n * spread(s) == sum((n * x - sum)^2)`, which is `n^2` times
/// `sum((x - mean)^2)`; so the variance is `sum((x - mean)^2) / (n - 1)`.
pub proof fn lemma_variance_is_mean_square_deviation(s: Seq<u64>)
    ensures
        spread(s) == s.len() * total_sq(s) - total(s) * total(s),
        s.len() * spread(s) == total_scaled_sq_dev(s, s.len() as int, total(s)),
{
    let n = s.len() as int;
    let t = total(s);
    lemma_scaled_sq_dev(s, n, t);
    assert(n * (n * total_sq(s) - t * t) == n * n * total_sq(s) - 2 * n * t * t + n * (t * t))
        by (nonlinear_arith);
}

/// The noise test in plain terms: with mean `sum / n` and variance
/// `var_num / (n * (n - 1))`, `sqrt(variance) / mean > 1 / 10` exactly when
/// `100 * var_num * n^2 > n * (n - 1) * sum^2`.
pub proof fn lemma_rsd_cross_multiplied(n: int, sum: int, var_num: int)
    ensures
        rsd_above_ten_percent(n, sum, var_num) == (n >= 2 && sum > 0 && 100 * var_num * (n * n)
            > (n * (n - 1)) * (sum * sum)),
{
    if n >= 2 && sum > 0 {
        assert(100 * var_num * n > (n - 1) * (sum * sum) <==> 100 * var_num * (n * n) > (n * (n
            - 1)) * (sum * sum)) by (nonlinear_arith)
            requires
                n >= 2,
        ;
    }
}

impl Summary {
    /// The fields are those that `summarise` gives: at least one sample, the
    /// mean over `n`, the variance over `n * (n - 1)`.
    pub open spec fn well_formed(self) -> bool {
        &&& self.n >= 1
        &&& self.mean.den == self.n
        &&& (self.n < 2 ==> self.variance.num@ == 0 && self.variance.den@ == 1)
        &&& (self.n >= 2 ==> self.variance.den@ == self.n * (self.n - 1))
    }

    /// Whether the relative standard deviation (standard deviation over mean)
    /// is above 10%, the level at which a benchmark counts as noisy.
    pub fn high_variance(&self) -> (r: bool)
        requires
            self.well_formed(),
        ensures
            r == rsd_above_ten_percent(self.n as int, self.mean.num as int, self.variance.num@ as int),
            r == (self.n >= 2 && self.mean.num > 0 && 100 * self.variance.num@ * (self.mean.den
                * self.mean.den) > self.variance.den@ * (self.mean.num * self.mean.num)),
    {
        proof {
            lemma_rsd_cross_multiplied(
                self.n as int,
                self.mean.num as int,
                self.variance.num@ as int,
            );
        }
        if self.n < 2 || self.mean.num == 0 {
            return false;
        }
        let n = self.n as u64;
        let s = self.mean.num;
        let lhs = self.variance.num.mul_u64(100).mul_u64(n);
        let rhs = Natural::from_u128(s).mul_u128(s).mul_u64(n - 1);
        proof {
            let v = self.variance.num@ as int;
            assert(v * 100 * n == 100 * v * n) by (nonlinear_arith);
            assert(s * s * (n - 1) == (n - 1) * (s * s)) by (nonlinear_arith);
        }
        !lhs.le(&rhs)
    }
}

impl Samples {
    /// All the statistics of the samples, of which there is at least one.
    pub fn summarise(&self) -> (r: Summary)
        requires
            self@.len() > 0,
        ensures
            summary_of(self@, r),
            r.well_formed(),
            r.n == self@.len(),
            r.mean.num == total(self@) && r.mean.den == self@.len(),
            self@.len() >= 2 ==> r.variance.num@ == self@.len() * total_sq(self@) - total(self@)
                * total(self@) && r.variance.den@ == self@.len() * (self@.len() - 1),
            self@.len() < 2 ==> r.variance.num@ == 0 && r.variance.den@ == 1,
            is_min(self@, r.min),
            is_max(self@, r.max),
            r.p50.num == percentile_value(sorted_samples(self@), 50, 1) && r.p50.den == 100,
            r.p95.num == percentile_value(sorted_samples(self@), 95, 1) && r.p95.den == 100,
            r.p99.num == percentile_value(sorted_samples(self@), 99, 1) && r.p99.den == 100,
    {
        let min = match self.min() {
            Some(m) => m,
            None => 0,
        };
        let max = match self.max() {
            Some(m) => m,
            None => 0,
        };
        let t = self.sorted();
        proof {
            lemma_sorted_samples(self@);
        }
        Summary {
            n: self.count(),
            mean: self.mean(),
            variance: self.variance(),
            min,
            max,
            p50: percentile_of_sorted(&t, 50, 1),
            p95: percentile_of_sorted(&t, 95, 1),
            p99: percentile_of_sorted(&t, 99, 1),
        }
    }
}


proof fn lemma_total_remove(s: Seq<u64>, j: int)
    requires
        0 <= j < s.len(),
    ensures
        total(s) == total(s.remove(j)) + s[j],
        total_sq(s) == total_sq(s.remove(j)) + s[j] * s[j],
    decreases s.len(),
{
    if j == s.len() - 1 {
        assert(s.remove(j) =~= s.drop_last());
    } else {
        lemma_total_remove(s.drop_last(), j);
        assert(s.remove(j).drop_last() =~= s.drop_last().remove(j));
        assert(s.remove(j).last() == s.last());
    }
}

proof fn lemma_total_perm(s: Seq<u64>, t: Seq<u64>)
    requires
        s.to_multiset() == t.to_multiset(),
    ensures
        total(s) == total(t),
        total_sq(s) == total_sq(t),
    decreases s.len(),
{
    to_multiset_len(s);
    to_multiset_len(t);
    if s.len() > 0 {
        let x = s.last();
        let n = s.len() as int;
        assert(s.contains(x)) by {
            assert(s[n - 1] == x);
        }
        to_multiset_contains(s, x);
        to_multiset_contains(t, x);
        assert(t.contains(x));
        let j = choose|j: int| 0 <= j < t.len() && t[j] == x;
        to_multiset_remove(s, n - 1);
        to_multiset_remove(t, j);
        assert(s.remove(n - 1) =~= s.drop_last());
        lemma_total_perm(s.drop_last(), t.remove(j));
        lemma_total_remove(t, j);
    }
}

proof fn lemma_extremes_perm(s: Seq<u64>, t: Seq<u64>, m: u64)
    requires
        s.to_multiset() == t.to_multiset(),
    ensures
        is_min(s, m) ==> is_min(t, m),
        is_max(s, m) ==> is_max(t, m),
{
    assert(s.contains(m) <==> t.contains(m)) by {
        to_multiset_contains(s, m);
        to_multiset_contains(t, m);
    }
    assert forall|i: int| 0 <= i < t.len() implies s.contains(#[trigger] t[i]) by {
        to_multiset_contains(s, t[i]);
        to_multiset_contains(t, t[i]);
    }
}

/// The statistics do not depend on the order in which the samples were
/// taken: samples that are a rearrangement of one another have the same
/// summary.
pub proof fn lemma_summary_order_independent(s: Seq<u64>, t: Seq<u64>, r: Summary)
    requires
        s.to_multiset() == t.to_multiset(),
        summary_of(s, r),
    ensures
        summary_of(t, r),
{
    to_multiset_len(s);
    to_multiset_len(t);
    lemma_total_perm(s, t);
    lemma_extremes_perm(s, t, r.min);
    lemma_extremes_perm(s, t, r.max);
    lemma_sorted_samples(s);
    lemma_sorted_samples(t);
    assert(sorted_samples(s) == sorted_samples(t));
}

/// Percentiles do not depend on the order in which the samples were taken:
/// rearranged samples sort to the same sequence.
pub proof fn lemma_percentile_order_independent(s: Seq<u64>, t: Seq<u64>, pn: int, pd: int)
    requires
        s.to_multiset() == t.to_multiset(),
    ensures
        sorted_samples(s) == sorted_samples(t),
        percentile_value(sorted_samples(s), pn, pd) == percentile_value(sorted_samples(t), pn, pd),
{
    lemma_sorted_samples(s);
    lemma_sorted_samples(t);
}

/// The sum is additive over concatenation and a single sample sums to
/// itself; with the empty sum 0 this fixes `total` as the plain sum.
pub proof fn lemma_total_is_sum(a: Seq<u64>, b: Seq<u64>, x: u64)
    ensures
        total(a + b) == total(a) + total(b),
        total(seq![x]) == x,
        total(Seq::<u64>::empty()) == 0,
        total_sq(a + b) == total_sq(a) + total_sq(b),
        total_sq(seq![x]) == x * x,
    decreases b.len(),
{
    assert(seq![x].drop_last() =~= Seq::<u64>::empty());
    assert(total(Seq::<u64>::empty()) == 0 && total_sq(Seq::<u64>::empty()) == 0);
    assert(seq![x].last() == x);
    assert(total(seq![x]) == total(seq![x].drop_last()) + seq![x].last());
    assert(total_sq(seq![x]) == total_sq(seq![x].drop_last()) + seq![x].last() * seq![x].last());
    if b.len() == 0 {
        assert(a + b =~= a);
    } else {
        lemma_total_is_sum(a, b.drop_last(), x);
        assert((a + b).drop_last() =~= a + b.drop_last());
        assert((a + b).last() == b.last());
    }
}

/// The mean lies between the smallest and the largest sample:
/// `n * min <= sum <= n * max`.
pub proof fn lemma_mean_between_extremes(s: Seq<u64>, lo: u64, hi: u64)
    requires
        is_min(s, lo),
        is_max(s, hi),
    ensures
        s.len() * lo <= total(s) <= s.len() * hi,
{
    assert forall|i: int| 0 <= i < s.len() implies lo <= #[trigger] s[i] && s[i] <= hi by {}
    lemma_bounds_below_above(s, lo, hi);
}

proof fn lemma_bounds_below_above(s: Seq<u64>, lo: u64, hi: u64)
    requires
        forall|i: int| 0 <= i < s.len() ==> lo <= #[trigger] s[i] && s[i] <= hi,
    ensures
        s.len() * lo <= total(s) <= s.len() * hi,
    decreases s.len(),
{
    let n = s.len() as int;
    if n > 0 {
        let p = s.drop_last();
        assert forall|i: int| 0 <= i < p.len() implies lo <= #[trigger] p[i] && p[i] <= hi by {
            assert(s[i] == p[i]);
        }
        lemma_bounds_below_above(p, lo, hi);
        assert(lo <= s[n - 1] <= hi);
        assert(n * lo == (n - 1) * lo + lo && n * hi == (n - 1) * hi + hi) by (nonlinear_arith);
    }
}

/// Samples that are all equal have no spread, so a variance of 0.
pub proof fn lemma_constant_samples_no_spread(s: Seq<u64>, c: u64)
    requires
        forall|i: int| 0 <= i < s.len() ==> #[trigger] s[i] == c,
    ensures
        spread(s) == 0,
    decreases s.len(),
{
    let n = s.len() as int;
    if n > 0 {
        let p = s.drop_last();
        assert forall|i: int| 0 <= i < p.len() implies #[trigger] p[i] == c by {
            assert(s[i] == p[i]);
        }
        lemma_constant_samples_no_spread(p, c);
        lemma_bounds_below_above(p, c, c);
        lemma_totals_sq_const(p, c);
        assert(s[n - 1] == c);
        let t = total(p);
        let q = total_sq(p);
        let m = n - 1;
        assert(n * (q + c * c) - (t + c) * (t + c) == 0) by (nonlinear_arith)
            requires
                t == m * c,
                q == m * (c * c),
                n == m + 1,
        ;
    }
}

proof fn lemma_totals_sq_const(s: Seq<u64>, c: u64)
    requires
        forall|i: int| 0 <= i < s.len() ==> #[trigger] s[i] == c,
    ensures
        total_sq(s) == s.len() * (c * c),
    decreases s.len(),
{
    let n = s.len() as int;
    if n > 0 {
        let p = s.drop_last();
        assert forall|i: int| 0 <= i < p.len() implies #[trigger] p[i] == c by {
            assert(s[i] == p[i]);
        }
        lemma_totals_sq_const(p, c);
        assert(s[n - 1] == c);
        assert(n * (c * c) == (n - 1) * (c * c) + c * c) by (nonlinear_arith);
    }
}


proof fn lemma_interpolated_step(t: Seq<u64>, k: int, d: int)
    requires
        sorted_by(t, ascending()),
        d >= 1,
        0 <= k < d * (t.len() - 1),
    ensures
        interpolated(t, k, d) <= interpolated(t, k + 1, d),
{
    let lo = k / d;
    let r = k % d;
    lemma_fundamental_div_mod(k, d);
    assert(0 <= lo < t.len() - 1) by (nonlinear_arith)
        requires
            k == d * lo + r,
            0 <= r < d,
            0 <= k < d * (t.len() - 1),
            d >= 1,
    ;
    assert(ascending()(t[lo], t[lo + 1]));
    let g = t[lo + 1] - t[lo];
    assert(0 <= r < d);
    if r < d - 1 {
        assert(k + 1 == lo * d + (r + 1)) by (nonlinear_arith)
            requires
                k == d * lo + r,
        ;
        lemma_fundamental_div_mod_converse(k + 1, d, lo, r + 1);
        assert(r * g <= (r + 1) * g) by (nonlinear_arith)
            requires
                g >= 0,
        ;
    } else {
        assert(k + 1 == (lo + 1) * d + 0) by (nonlinear_arith)
            requires
                k == d * lo + r,
                r == d - 1,
        ;
        lemma_fundamental_div_mod_converse(k + 1, d, lo + 1, 0);
        assert(d * t[lo] + r * g <= d * t[lo + 1]) by (nonlinear_arith)
            requires
                g >= 0,
                r == d - 1,
                g == t[lo + 1] - t[lo],
        ;
    }
}

proof fn lemma_interpolated_monotone(t: Seq<u64>, k1: int, k2: int, d: int)
    requires
        sorted_by(t, ascending()),
        d >= 1,
        0 <= k1 <= k2 <= d * (t.len() - 1),
    ensures
        interpolated(t, k1, d) <= interpolated(t, k2, d),
    decreases k2 - k1,
{
    if k1 < k2 {
        lemma_interpolated_step(t, k1, d);
        lemma_interpolated_monotone(t, k1 + 1, k2, d);
    }
}

proof fn lemma_min_max_sorted(s: Seq<u64>, lo: u64, hi: u64)
    requires
        s.len() > 0,
        is_min(s, lo),
        is_max(s, hi),
    ensures
        sorted_samples(s)[0] == lo,
        sorted_samples(s)[s.len() - 1] == hi,
{
    lemma_sorted_samples(s);
    let t = sorted_samples(s);
    let n = s.len() as int;
    lemma_extremes_perm(s, t, lo);
    lemma_extremes_perm(s, t, hi);
    lemma_extremes_perm(t, s, t[0]);
    lemma_extremes_perm(t, s, t[n - 1]);
    assert(is_min(t, t[0])) by {
        assert forall|i: int| 0 <= i < t.len() implies t[0] <= #[trigger] t[i] by {
            if i > 0 {
                assert(ascending()(t[0], t[i]));
            }
        }
    }
    assert(is_max(t, t[n - 1])) by {
        assert forall|i: int| 0 <= i < t.len() implies #[trigger] t[i] <= t[n - 1] by {
            if i < n - 1 {
                assert(ascending()(t[i], t[n - 1]));
            }
        }
    }
    let i = choose|i: int| 0 <= i < s.len() && s[i] == t[0];
    let j = choose|j: int| 0 <= j < s.len() && s[j] == lo;
    assert(lo <= s[i] && t[0] <= s[j]);
    let i2 = choose|i: int| 0 <= i < s.len() && s[i] == t[n - 1];
    let j2 = choose|j: int| 0 <= j < s.len() && s[j] == hi;
    assert(s[i2] <= hi && s[j2] <= t[n - 1]);
}

/// Every percentile lies between the smallest and the largest sample; the
/// 0th is the smallest and the 100th the largest.
pub proof fn lemma_percentile_bounds(s: Seq<u64>, pn: int, pd: int, lo: u64, hi: u64)
    requires
        s.len() > 0,
        pd >= 1,
        0 <= pn <= 100 * pd,
        is_min(s, lo),
        is_max(s, hi),
    ensures
        100 * pd * lo <= percentile_value(sorted_samples(s), pn, pd) <= 100 * pd * hi,
        pn == 0 ==> percentile_value(sorted_samples(s), pn, pd) == 100 * pd * lo,
        pn == 100 * pd ==> percentile_value(sorted_samples(s), pn, pd) == 100 * pd * hi,
{
    lemma_sorted_samples(s);
    lemma_min_max_sorted(s, lo, hi);
    let t = sorted_samples(s);
    let m = s.len() - 1;
    let d = 100 * pd;
    assert(0 <= pn * m <= d * m) by (nonlinear_arith)
        requires
            0 <= pn <= d,
            m >= 0,
    ;
    lemma_interpolated_monotone(t, 0, pn * m, d);
    lemma_interpolated_monotone(t, pn * m, d * m, d);
    lemma_fundamental_div_mod_converse(d * m, d, m, 0);
    lemma_fundamental_div_mod_converse(0, d, 0, 0);
    if pn == 0 {
        assert(pn * m == 0) by (nonlinear_arith)
            requires
                pn == 0,
        ;
    }
    if pn == d {
        assert(pn * m == d * m);
    }
    assert(0int / d == 0 && 0int % d == 0);
    assert(interpolated(t, 0, d) == d * t[0] + 0 * (t[0] - t[0]));
    assert(interpolated(t, 0, d) == d * t[0]);
    assert(interpolated(t, d * m, d) == d * t[m]);
    assert(d * t[0] == 100 * pd * lo && d * t[m] == 100 * pd * hi) by (nonlinear_arith)
        requires
            d == 100 * pd,
            t[0] == lo,
            t[m] == hi,
    ;
}

/// A percentile is the weighted average of the two samples around its rank:
/// at rank `lo + f` (with `0 <= f < 1`, `lo` whole) it is
/// `(1 - f) * t[lo] + f * t[lo + 1]` (just `t[lo]` when `f` is 0), the ranks
/// counted from 0 over the ascending samples `t` and the rank being
/// `p / 100 * (n - 1)`; here everything is scaled by `d = 100 * pd` and
/// `f = r / d`.
pub proof fn lemma_percentile_weighted_average(s: Seq<u64>, pn: int, pd: int)
    requires
        s.len() > 0,
        pd >= 1,
        0 <= pn <= 100 * pd,
    ensures
        ({
            let t = sorted_samples(s);
            let d = 100 * pd;
            let k = pn * (s.len() - 1);
            let lo = k / d;
            let r = k % d;
            &&& k == lo * d + r
            &&& 0 <= r < d
            &&& 0 <= lo < s.len()
            &&& (r == 0 ==> percentile_value(t, pn, pd) == d * t[lo])
            &&& (r > 0 ==> lo + 1 < s.len() && percentile_value(t, pn, pd) == (d - r) * t[lo] + r
                * t[lo + 1])
        }),
{
    lemma_sorted_samples(s);
    let t = sorted_samples(s);
    let d = 100 * pd;
    let m = s.len() - 1;
    let k = pn * m;
    lemma_fundamental_div_mod(k, d);
    let lo = k / d;
    let r = k % d;
    assert(k == lo * d + r) by (nonlinear_arith)
        requires
            k == d * lo + r,
    ;
    assert(0 <= k <= d * m) by (nonlinear_arith)
        requires
            0 <= pn <= d,
            m >= 0,
            k == pn * m,
    ;
    assert(0 <= lo <= m && (r > 0 ==> lo < m)) by (nonlinear_arith)
        requires
            k == d * lo + r,
            0 <= r < d,
            0 <= k <= d * m,
            d >= 1,
    ;
    if r > 0 {
        assert(d * t[lo] + r * (t[lo + 1] - t[lo]) == (d - r) * t[lo] + r * t[lo + 1])
            by (nonlinear_arith);
    } else {
        assert(r * (t[lo] - t[lo]) == 0) by (nonlinear_arith);
    }
}

/// Percentiles grow with the percent: `p <= q` (over a common denominator)
/// gives a value at `p` no larger than the value at `q`.
pub proof fn lemma_percentile_monotone(s: Seq<u64>, p: int, q: int, pd: int)
    requires
        s.len() > 0,
        pd >= 1,
        0 <= p <= q <= 100 * pd,
    ensures
        percentile_value(sorted_samples(s), p, pd) <= percentile_value(sorted_samples(s), q, pd),
{
    lemma_sorted_samples(s);
    let t = sorted_samples(s);
    let m = s.len() - 1;
    assert(0 <= p * m <= q * m <= (100 * pd) * m) by (nonlinear_arith)
        requires
            0 <= p <= q <= 100 * pd,
            m >= 0,
    ;
    lemma_interpolated_monotone(t, p * m, q * m, 100 * pd);
}

} // verus!
