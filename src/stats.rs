use vstd::prelude::*;
use vstd::arithmetic::div_mod::{lemma_hoist_over_denominator, lemma_fundamental_div_mod, lemma_mod_bound};

verus! {

/// Running statistics of one key, all values in tenths.
pub struct Stat {
    pub min: int,
    pub max: int,
    pub sum: int,
    pub count: nat,
}

/// Statistics of a single observation.
pub open spec fn single(v: int) -> Stat {
    Stat { min: v, max: v, sum: v, count: 1 }
}

pub open spec fn min_int(a: int, b: int) -> int {
    if a <= b { a } else { b }
}

pub open spec fn max_int(a: int, b: int) -> int {
    if a >= b { a } else { b }
}

/// Element-wise combination of two statistics of the same key.
pub open spec fn combine(a: Stat, b: Stat) -> Stat {
    Stat {
        min: min_int(a.min, b.min),
        max: max_int(a.max, b.max),
        sum: a.sum + b.sum,
        count: a.count + b.count,
    }
}

/// Adds statistics to what is known of a key, if anything.
pub open spec fn join(prev: Option<Stat>, s: Stat) -> Stat {
    match prev {
        Some(a) => combine(a, s),
        None => s,
    }
}

/// A consistent statistic: at least one observation, extremes within the
/// two-integer-digit range, and a sum between `count * min` and `count * max`.
pub open spec fn stat_ok(s: Stat) -> bool {
    &&& s.count >= 1
    &&& -999 <= s.min <= s.max <= 999
    &&& s.min * s.count <= s.sum <= s.max * s.count
}

/// The mean in tenths, rounded half up: `floor(sum / count + 1/2)`.
pub open spec fn mean_tenths(s: Stat) -> int {
    (2 * s.sum + s.count) / (2 * s.count as int)
}

/// Combining two consistent statistics gives a consistent one.
pub proof fn lemma_combine_ok(a: Stat, b: Stat)
    requires
        stat_ok(a),
        stat_ok(b),
    ensures
        stat_ok(combine(a, b)),
{
    let c = combine(a, b);
    assert(c.min * a.count <= a.min * a.count) by (nonlinear_arith)
        requires c.min <= a.min, a.count >= 1;
    assert(c.min * b.count <= b.min * b.count) by (nonlinear_arith)
        requires c.min <= b.min, b.count >= 1;
    assert(a.max * a.count <= c.max * a.count) by (nonlinear_arith)
        requires c.max >= a.max, a.count >= 1;
    assert(b.max * b.count <= c.max * b.count) by (nonlinear_arith)
        requires c.max >= b.max, b.count >= 1;
    assert(c.min * c.count == c.min * a.count + c.min * b.count) by (nonlinear_arith)
        requires c.count == a.count + b.count;
    assert(c.max * c.count == c.max * a.count + c.max * b.count) by (nonlinear_arith)
        requires c.count == a.count + b.count;
}

/// The sum of a consistent statistic is at most `99.9` per observation
/// in magnitude.
pub proof fn lemma_sum_bound(s: Stat)
    requires
        stat_ok(s),
    ensures
        -999 * s.count <= s.sum <= 999 * s.count,
{
    assert(-999 * s.count <= s.min * s.count) by (nonlinear_arith)
        requires -999 <= s.min, s.count >= 1;
    assert(s.max * s.count <= 999 * s.count) by (nonlinear_arith)
        requires s.max <= 999, s.count >= 1;
}

/// The rounded mean of a consistent statistic lies between its extremes.
pub proof fn lemma_mean_between(s: Stat)
    requires
        stat_ok(s),
    ensures
        s.min <= mean_tenths(s) <= s.max,
{
    let d = 2 * s.count as int;
    let n = 2 * s.sum + s.count;
    let q = mean_tenths(s);
    assert(s.min * d == 2 * (s.min * s.count)) by (nonlinear_arith)
        requires d == 2 * s.count;
    assert(s.max * d == 2 * (s.max * s.count)) by (nonlinear_arith)
        requires d == 2 * s.count;
    lemma_fundamental_div_mod(n, d);
    lemma_mod_bound(n, d);
    assert(n == d * q + n % d);
    assert(s.min <= q) by (nonlinear_arith)
        requires n == d * q + n % d, 0 <= n % d < d, n >= s.min * d + s.count, d == 2 * s.count, s.count >= 1;
    assert(q <= s.max) by (nonlinear_arith)
        requires n == d * q + n % d, 0 <= n % d < d, n <= s.max * d + s.count, d == 2 * s.count, s.count >= 1;
}

/// Executable statistics of one key, in tenths.
#[derive(Debug, Clone, Copy, PartialEq, Eq)]
pub struct Station {
    pub min: i64,
    pub max: i64,
    pub sum: i128,
    pub count: u64,
}

impl View for Station {
    type V = Stat;

    open spec fn view(&self) -> Stat {
        Stat { min: self.min as int, max: self.max as int, sum: self.sum as int, count: self.count as nat }
    }
}

impl Station {
    /// Statistics of one observed value.
    pub fn from_value(v: i64) -> (r: Station)
        requires
            -999 <= v <= 999,
        ensures
            r@ == single(v as int),
            stat_ok(r@),
    {
        Station { min: v, max: v, sum: v as i128, count: 1 }
    }

    /// Element-wise combination of two statistics of the same key.
    pub fn combined(&self, other: &Station) -> (r: Station)
        requires
            stat_ok(self@),
            stat_ok(other@),
            self.count + other.count <= u64::MAX,
        ensures
            r@ == combine(self@, other@),
            stat_ok(r@),
    {
        proof {
            lemma_sum_bound(self@);
            lemma_sum_bound(other@);
            lemma_combine_ok(self@, other@);
        }
        Station {
            min: if self.min <= other.min { self.min } else { other.min },
            max: if self.max >= other.max { self.max } else { other.max },
            sum: self.sum + other.sum,
            count: self.count + other.count,
        }
    }

    /// The mean in tenths, rounded half up.
    pub fn mean(&self) -> (r: i64)
        requires
            stat_ok(self@),
        ensures
            r as int == mean_tenths(self@),
            self.min <= r <= self.max,
    {
        proof {
            lemma_sum_bound(self@);
            lemma_mean_between(self@);
        }
        let d: i128 = 2 * self.count as i128;
        let n: i128 = 2 * self.sum + self.count as i128;
        let shifted: i128 = n + 1000 * d;
        assert(shifted >= 0) by (nonlinear_arith)
            requires n >= -1998 * self.count + self.count, d == 2 * self.count, shifted == n + 1000 * d;
        let q: u128 = (shifted as u128) / (d as u128);
        proof {
            lemma_hoist_over_denominator(n as int, 1000, d as nat);
        }
        (q as i128 - 1000) as i64
    }
}

} // verus!
