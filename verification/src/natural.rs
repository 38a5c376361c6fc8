use vstd::prelude::*;

verus! {

/// The base of the digits of a `Natural`: 2^64.
pub open spec fn limb_base() -> nat {
    0x1_0000_0000_0000_0000
}

/// `limb_base()` to the power `e`.
pub open spec fn base_pow(e: nat) -> nat
    decreases e,
{
    if e == 0 {
        1
    } else {
        limb_base() * base_pow((e - 1) as nat)
    }
}

/// The number written by the base-2^64 digits `s`, least significant first.
pub open spec fn limbs_value(s: Seq<u64>) -> nat
    decreases s.len(),
{
    if s.len() == 0 {
        0
    } else {
        s[0] as nat + limb_base() * limbs_value(s.drop_first())
    }
}

/// Digit `i` of `s`, 0 beyond its length.
pub open spec fn limb_at(s: Seq<u64>, i: int) -> nat {
    if 0 <= i < s.len() {
        s[i] as nat
    } else {
        0
    }
}

/// The value of the lowest `i` digits of `s` (missing digits count as 0).
pub open spec fn prefix_value(s: Seq<u64>, i: nat) -> nat
    decreases i,
{
    if i == 0 {
        0
    } else {
        prefix_value(s, (i - 1) as nat) + limb_at(s, i - 1) * base_pow((i - 1) as nat)
    }
}

proof fn lemma_value_push(s: Seq<u64>, x: u64)
    ensures
        limbs_value(s.push(x)) == limbs_value(s) + x * base_pow(s.len()),
    decreases s.len(),
{
    if s.len() == 0 {
        assert(s.push(x).drop_first() =~= Seq::<u64>::empty());
        assert(limbs_value(Seq::<u64>::empty()) == 0);
        assert(limbs_value(s) == 0);
        assert(base_pow(0) == 1);
        assert(limbs_value(s.push(x)) == x as nat + limb_base() * limbs_value(s.push(x).drop_first()));
    } else {
        assert(s.push(x).drop_first() =~= s.drop_first().push(x));
        assert(s.push(x)[0] == s[0]);
        lemma_value_push(s.drop_first(), x);
        let v = limbs_value(s.drop_first());
        let p = base_pow((s.len() - 1) as nat);
        assert(base_pow(s.len()) == limb_base() * p);
        assert(limb_base() * (v + x * p) == limb_base() * v + x * (limb_base() * p))
            by (nonlinear_arith);
    }
}

proof fn lemma_prefix_take(s: Seq<u64>, i: nat)
    requires
        i <= s.len(),
    ensures
        prefix_value(s, i) == limbs_value(s.take(i as int)),
    decreases i,
{
    if i == 0 {
        assert(s.take(0) =~= Seq::<u64>::empty());
    } else {
        lemma_prefix_take(s, (i - 1) as nat);
        assert(s.take(i as int) =~= s.take(i - 1).push(s[i - 1]));
        lemma_value_push(s.take(i - 1), s[i - 1]);
    }
}

/// Past the last digit the prefix value is the whole value.
proof fn lemma_prefix_full(s: Seq<u64>, i: nat)
    requires
        i >= s.len(),
    ensures
        prefix_value(s, i) == limbs_value(s),
    decreases i,
{
    if i == s.len() {
        lemma_prefix_take(s, i);
        assert(s.take(i as int) =~= s);
    } else {
        lemma_prefix_full(s, (i - 1) as nat);
        assert(limb_at(s, i - 1) == 0);
        assert(prefix_value(s, i) == prefix_value(s, (i - 1) as nat) + limb_at(s, i - 1)
            * base_pow((i - 1) as nat));
    }
}

proof fn lemma_value_bound(s: Seq<u64>)
    ensures
        limbs_value(s) < base_pow(s.len()),
    decreases s.len(),
{
    if s.len() > 0 {
        lemma_value_bound(s.drop_first());
        let v = limbs_value(s.drop_first());
        let p = base_pow((s.len() - 1) as nat);
        let x = s[0] as nat;
        assert(x + limb_base() * v < limb_base() * p) by (nonlinear_arith)
            requires
                x < limb_base(),
                v < p,
                v >= 0,
        ;
    }
}

/// Drops the leading zero digits of `v`, which leaves its value.
fn trim(v: Vec<u64>) -> (r: Vec<u64>)
    ensures
        limbs_value(r@) == limbs_value(v@),
        r@.len() <= v@.len(),
{
    let mut r = v;
    while r.len() > 0 && r[r.len() - 1] == 0
        invariant
            limbs_value(r@) == limbs_value(v@),
            r@.len() <= v@.len(),
        decreases r@.len(),
    {
        let ghost before = r@;
        r.pop();
        proof {
            assert(before =~= r@.push(0u64));
            lemma_value_push(r@, 0u64);
        }
    }
    r
}

/// An arbitrarily large natural number, for exact arithmetic on products of
/// sums of timings.
#[derive(Debug)]
pub struct Natural {
    limbs: Vec<u64>,
}

impl View for Natural {
    type V = nat;

    closed spec fn view(&self) -> nat {
        limbs_value(self.limbs@)
    }
}

proof fn lemma_digit_split(t: int, p: int)
    requires
        0 <= t,
        0 <= p,
    ensures
        (t % 0x1_0000_0000_0000_0000) * p + (t / 0x1_0000_0000_0000_0000) * (
        0x1_0000_0000_0000_0000 * p) == t * p,
{
    let b: int = 0x1_0000_0000_0000_0000;
    assert(t == b * (t / b) + t % b) by (nonlinear_arith)
        requires
            b > 0,
    ;
    assert((t % b) * p + (t / b) * (b * p) == (b * (t / b) + t % b) * p) by (nonlinear_arith);
}

impl Natural {
    /// The digits, least significant first, in base 2^64.
    pub fn limbs(&self) -> (r: &Vec<u64>)
        ensures
            limbs_value(r@) == self@,
    {
        &self.limbs
    }

    /// The same number.
    pub fn copy(&self) -> (r: Natural)
        ensures
            r@ == self@,
    {
        let n = self.limbs.len();
        let mut limbs: Vec<u64> = Vec::new();
        for i in 0..n
            invariant
                n == self.limbs@.len(),
                limbs@ =~= self.limbs@.take(i as int),
        {
            limbs.push(self.limbs[i]);
            assert(self.limbs@.take(i + 1) =~= self.limbs@.take(i as int).push(self.limbs@[i as int]));
        }
        assert(self.limbs@.take(n as int) =~= self.limbs@);
        Natural { limbs }
    }

    /// The number `v`.
    pub fn from_u128(v: u128) -> (r: Natural)
        ensures
            r@ == v,
    {
        let lo = (v % 0x1_0000_0000_0000_0000u128) as u64;
        let hi = (v / 0x1_0000_0000_0000_0000u128) as u64;
        let mut limbs: Vec<u64> = Vec::new();
        limbs.push(lo);
        limbs.push(hi);
        proof {
            let s = limbs@;
            assert(s.drop_first().drop_first() =~= Seq::<u64>::empty());
            assert(limbs_value(s.drop_first().drop_first()) == 0);
            assert(s.drop_first()[0] == hi);
            assert(limbs_value(s.drop_first()) == hi);
            assert(v == 0x1_0000_0000_0000_0000 * (v / 0x1_0000_0000_0000_0000) + v
                % 0x1_0000_0000_0000_0000) by (nonlinear_arith);
        }
        Natural { limbs }
    }

    /// This number times `m`.
    pub fn mul_u64(&self, m: u64) -> (r: Natural)
        ensures
            r@ == self@ * m,
    {
        let a = &self.limbs;
        let n = a.len();
        let mut r: Vec<u64> = Vec::new();
        let mut c: u64 = 0;
        assert(limbs_value(r@) == 0);
        assert(prefix_value(a@, 0) == 0);
        for i in 0..n
            invariant
                n == a@.len(),
                r@.len() == i,
                limbs_value(r@) + c * base_pow(i as nat) == prefix_value(a@, i as nat) * m,
        {
            let ghost p = base_pow(i as nat);
            let ghost pv = prefix_value(a@, i as nat);
            let ai = a[i];
            proof {
                assert((ai as int) * (m as int) + (c as int) <= u64::MAX * u64::MAX + u64::MAX)
                    by (nonlinear_arith)
                    requires
                        ai <= u64::MAX,
                        m <= u64::MAX,
                        c <= u64::MAX,
                ;
            }
            let t: u128 = (ai as u128) * (m as u128) + (c as u128);
            let lo = (t % 0x1_0000_0000_0000_0000u128) as u64;
            let hi = (t / 0x1_0000_0000_0000_0000u128) as u64;
            proof {
                lemma_value_push(r@, lo);
                lemma_digit_split(t as int, p as int);
                assert(pv * m + ai * m * p == (pv + ai * p) * m) by (nonlinear_arith);
                assert(t * p == ai * m * p + c * p) by (nonlinear_arith)
                    requires
                        t == ai * m + c,
                ;
            }
            r.push(lo);
            c = hi;
        }
        proof {
            lemma_value_push(r@, c);
            lemma_prefix_full(a@, n as nat);
        }
        r.push(c);
        Natural { limbs: trim(r) }
    }

    /// This number times 2^64.
    fn shift_limb(&self) -> (r: Natural)
        ensures
            r@ == self@ * limb_base(),
    {
        let a = &self.limbs;
        let n = a.len();
        let mut r: Vec<u64> = Vec::new();
        r.push(0);
        for i in 0..n
            invariant
                n == a@.len(),
                r@ =~= seq![0u64] + a@.take(i as int),
        {
            r.push(a[i]);
            assert(seq![0u64] + a@.take(i + 1) =~= (seq![0u64] + a@.take(i as int)).push(a@[i as int]));
        }
        proof {
            assert(a@.take(n as int) =~= a@);
            assert(r@.drop_first() =~= a@);
            assert(r@[0] == 0);
            assert(limbs_value(r@) == limb_base() * limbs_value(a@));
            assert(limb_base() * limbs_value(a@) == limbs_value(a@) * limb_base()) by (nonlinear_arith);
        }
        Natural { limbs: r }
    }

    /// This number times `v`.
    pub fn mul_u128(&self, v: u128) -> (r: Natural)
        ensures
            r@ == self@ * v,
    {
        let lo = (v % 0x1_0000_0000_0000_0000u128) as u64;
        let hi = (v / 0x1_0000_0000_0000_0000u128) as u64;
        let a = self.mul_u64(lo);
        let b = self.mul_u64(hi).shift_limb();
        let r = a.add(&b);
        proof {
            let x = self@ as int;
            assert(v == 0x1_0000_0000_0000_0000 * hi + lo) by (nonlinear_arith)
                requires
                    lo == v % 0x1_0000_0000_0000_0000,
                    hi == v / 0x1_0000_0000_0000_0000,
            ;
            assert(x * lo + x * hi * 0x1_0000_0000_0000_0000 == x * v) by (nonlinear_arith)
                requires
                    v == 0x1_0000_0000_0000_0000 * hi + lo,
            ;
        }
        r
    }

    /// The sum of the two numbers.
    pub fn add(&self, other: &Natural) -> (r: Natural)
        ensures
            r@ == self@ + other@,
    {
        let a = &self.limbs;
        let b = &other.limbs;
        let n = if a.len() >= b.len() {
            a.len()
        } else {
            b.len()
        };
        let mut r: Vec<u64> = Vec::new();
        let mut c: u64 = 0;
        assert(limbs_value(r@) == 0);
        assert(prefix_value(a@, 0) == 0 && prefix_value(b@, 0) == 0);
        for i in 0..n
            invariant
                r@.len() == i,
                c <= 1,
                limbs_value(r@) + c * base_pow(i as nat) == prefix_value(a@, i as nat)
                    + prefix_value(b@, i as nat),
        {
            let ghost p = base_pow(i as nat);
            let x: u64 = if i < a.len() {
                a[i]
            } else {
                0
            };
            let y: u64 = if i < b.len() {
                b[i]
            } else {
                0
            };
            let t: u128 = (x as u128) + (y as u128) + (c as u128);
            let lo = (t % 0x1_0000_0000_0000_0000u128) as u64;
            let hi = (t / 0x1_0000_0000_0000_0000u128) as u64;
            proof {
                assert(x == limb_at(a@, i as int) && y == limb_at(b@, i as int));
                lemma_value_push(r@, lo);
                lemma_digit_split(t as int, p as int);
                assert(t * p == x * p + y * p + c * p) by (nonlinear_arith)
                    requires
                        t == x + y + c,
                ;
            }
            r.push(lo);
            c = hi;
        }
        proof {
            lemma_value_push(r@, c);
            lemma_prefix_full(a@, n as nat);
            lemma_prefix_full(b@, n as nat);
        }
        r.push(c);
        Natural { limbs: trim(r) }
    }

    /// The difference `self - other` digit by digit, and whether a borrow is
    /// left at the end, which happens exactly when `self` is the smaller.
    fn sub_borrow(&self, other: &Natural) -> (r: (Natural, bool))
        ensures
            r.1 <==> self@ < other@,
            !r.1 ==> r.0@ == self@ - other@,
    {
        let a = &self.limbs;
        let b = &other.limbs;
        let n = if a.len() >= b.len() {
            a.len()
        } else {
            b.len()
        };
        let mut r: Vec<u64> = Vec::new();
        let mut c: u64 = 0;
        assert(limbs_value(r@) == 0);
        assert(prefix_value(a@, 0) == 0 && prefix_value(b@, 0) == 0);
        for i in 0..n
            invariant
                r@.len() == i,
                c <= 1,
                limbs_value(r@) - c * base_pow(i as nat) == prefix_value(a@, i as nat)
                    - prefix_value(b@, i as nat),
        {
            let ghost p = base_pow(i as nat);
            let x: u64 = if i < a.len() {
                a[i]
            } else {
                0
            };
            let y: u64 = if i < b.len() {
                b[i]
            } else {
                0
            };
            let (d, c2): (u64, u64) = if (x as u128) >= (y as u128) + (c as u128) {
                (((x as u128) - (y as u128) - (c as u128)) as u64, 0)
            } else {
                (((x as u128) + 0x1_0000_0000_0000_0000u128 - (y as u128) - (c as u128)) as u64, 1)
            };
            proof {
                assert(x == limb_at(a@, i as int) && y == limb_at(b@, i as int));
                assert(base_pow((i + 1) as nat) == limb_base() * p);
                assert(prefix_value(a@, (i + 1) as nat) == prefix_value(a@, i as nat) + x * p);
                assert(prefix_value(b@, (i + 1) as nat) == prefix_value(b@, i as nat) + y * p);
                lemma_value_push(r@, d);
                assert(d - c2 * limb_base() == x - y - c);
                assert((d - c2 * limb_base()) * p == x * p - y * p - c * p) by (nonlinear_arith)
                    requires
                        d - c2 * limb_base() == x - y - c,
                ;
                assert(c2 * (limb_base() * p) == (c2 * limb_base()) * p) by (nonlinear_arith);
                assert((d - c2 * limb_base()) * p == d * p - (c2 * limb_base()) * p)
                    by (nonlinear_arith);
                assert(limbs_value(r@.push(d)) - c2 * base_pow((i + 1) as nat) == limbs_value(r@)
                    + d * p - c2 * (limb_base() * p));
            }
            r.push(d);
            c = c2;
        }
        proof {
            lemma_prefix_full(a@, n as nat);
            lemma_prefix_full(b@, n as nat);
            lemma_value_bound(r@);
        }
        (Natural { limbs: trim(r) }, c == 1)
    }

    /// `self - other`, which is not negative.
    pub fn sub(&self, other: &Natural) -> (r: Natural)
        requires
            self@ >= other@,
        ensures
            r@ == self@ - other@,
    {
        let (d, _) = self.sub_borrow(other);
        d
    }

    /// Whether this number is at most `other`.
    pub fn le(&self, other: &Natural) -> (r: bool)
        ensures
            r == (self@ <= other@),
    {
        let (_, borrow) = other.sub_borrow(self);
        !borrow
    }

    /// Whether this number is `other`.
    pub fn equals(&self, other: &Natural) -> (r: bool)
        ensures
            r == (self@ == other@),
    {
        self.le(other) && other.le(self)
    }
}

} // verus!
