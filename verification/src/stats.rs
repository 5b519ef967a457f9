//! The per-key running aggregate: minimum, maximum, sum and count of the
//! observed values, all in exact tenths.
//!
//! An aggregate is only ever created from a first observed value, never
//! from a default state, so `count >= 1` holds of every aggregate and the
//! mean `sum / count` is always defined.  Merging two aggregates is
//! commutative and associative, which is what makes chunked, parallel
//! aggregation safe.

use vstd::prelude::*;
use vstd::std_specs::convert::FromSpec;
use vstd::arithmetic::div_mod::{
    lemma_fundamental_div_mod,
    lemma_fundamental_div_mod_converse,
    lemma_div_is_ordered,
};
use crate::numeral::{in_value_range, round_half_up, MAX_TENTHS};

verus! {

/// Running statistics of one key.  `min`, `max` and `sum` are in tenths.
#[derive(PartialEq, Eq, Structural, Clone, Copy, Debug)]
pub struct Measurement {
    pub min: i64,
    pub max: i64,
    pub sum: i128,
    pub count: u64,
}

impl Measurement {
    /// Every aggregate that exists satisfies this: it has seen at least
    /// one value, its extremes are ordered and within the value range,
    /// and its sum lies between `count * min` and `count * max`.
    pub open spec fn wf(self) -> bool {
        &&& 1 <= self.count
        &&& in_value_range(self.min as int)
        &&& in_value_range(self.max as int)
        &&& self.min <= self.max
        &&& self.count * self.min <= self.sum <= self.count * self.max
    }

    /// The aggregate after one more observed value.
    pub open spec fn recorded(self, value: i64) -> Measurement {
        Measurement {
            min: if value < self.min { value } else { self.min },
            max: if value > self.max { value } else { self.max },
            sum: (self.sum + value) as i128,
            count: (self.count + 1) as u64,
        }
    }

    /// The combination of two aggregates over disjoint record sets.
    pub open spec fn merged(self, other: Measurement) -> Measurement {
        Measurement {
            min: if other.min < self.min { other.min } else { self.min },
            max: if other.max > self.max { other.max } else { self.max },
            sum: (self.sum + other.sum) as i128,
            count: (self.count + other.count) as u64,
        }
    }

    /// Records one more observed value in place.
    pub fn record(&mut self, value: i64)
        requires
            old(self).wf(),
            in_value_range(value as int),
            old(self).count < u64::MAX,
        ensures
            *final(self) == old(self).recorded(value),
            final(self).wf(),
    {
        proof {
            lemma_sum_in_i128(*self);
            lemma_recorded_wf(*self, value);
        }
        if value < self.min {
            self.min = value;
        }
        if value > self.max {
            self.max = value;
        }
        self.sum = self.sum + value as i128;
        self.count = self.count + 1;
    }

    /// Merges another aggregate into this one in place.
    pub fn aggregate(&mut self, other: &Measurement)
        requires
            old(self).wf(),
            other.wf(),
            old(self).count + other.count <= u64::MAX,
        ensures
            *final(self) == old(self).merged(*other),
            final(self).wf(),
    {
        proof {
            lemma_sum_in_i128(*self);
            lemma_sum_in_i128(*other);
            lemma_merged_wf(*self, *other);
        }
        if other.min < self.min {
            self.min = other.min;
        }
        if other.max > self.max {
            self.max = other.max;
        }
        self.sum = self.sum + other.sum;
        self.count = self.count + other.count;
    }

    /// The mean of the observed values, in tenths, rounded to the nearest
    /// whole tenth with ties away from negative infinity.  It always lies
    /// between the minimum and the maximum.
    pub fn mean_tenths(&self) -> (r: i64)
        requires
            self.wf(),
        ensures
            r == round_half_up(self.sum as int, self.count as int),
            self.min <= r <= self.max,
    {
        proof {
            lemma_sum_in_i128(*self);
            lemma_round_half_up_bounds(self.sum as int, self.count as int, self.min as int, self.max as int);
        }
        let c = self.count as u128;
        let den = 2 * c;
        if self.sum >= 0 {
            let num = (2 * self.sum) as u128 + c;
            let q = num / den;
            proof {
                lemma_fundamental_div_mod(num as int, den as int);
            }
            q as i64
        } else {
            let t = (-self.sum) as u128;
            if 2 * t <= c {
                proof {
                    // 2*sum + count lies in [0, 2*count), so the quotient is zero.
                    lemma_fundamental_div_mod_converse(
                        2 * (self.sum as int) + self.count as int,
                        2 * self.count as int,
                        0,
                        2 * (self.sum as int) + self.count as int,
                    );
                }
                0
            } else {
                let b = 2 * t - c;
                let q = (b + den - 1) / den;
                proof {
                    lemma_fundamental_div_mod(b as int + den as int - 1, den as int);
                    let q0 = (b as int + den as int - 1) / (den as int);
                    let r0 = (b as int + den as int - 1) % (den as int);
                    vstd::arithmetic::div_mod::lemma_mod_division_less_than_divisor(
                        b as int + den as int - 1,
                        den as int,
                    );
                    // -b == (-q0) * den + (den - 1 - r0) with the remainder in range,
                    // so the rounded mean is exactly -q0.
                    assert(-(b as int) == (-q0) * (den as int) + (den as int - 1 - r0))
                        by (nonlinear_arith)
                        requires
                            b as int + den as int - 1 == (den as int) * q0 + r0,
                    ;
                    lemma_fundamental_div_mod_converse(
                        -(b as int),
                        den as int,
                        -q0,
                        den as int - 1 - r0,
                    );
                }
                let r = -(q as i64);
                r
            }
        }
    }
}

/// The aggregate after a first observed value: extremes and sum are that
/// value, the count is one.
pub open spec fn first_stats(value: i64) -> Measurement {
    Measurement { min: value, max: value, sum: value as i128, count: 1 }
}

impl From<i64> for Measurement {
    /// The aggregate of a single first observed value, given in tenths.
    fn from(value: i64) -> Measurement {
        Measurement { min: value, max: value, sum: value as i128, count: 1 }
    }
}

impl vstd::std_specs::convert::FromSpecImpl<i64> for Measurement {
    open spec fn obeys_from_spec() -> bool {
        true
    }

    open spec fn from_spec(value: i64) -> Measurement {
        first_stats(value)
    }
}

/// An aggregate freshly made from one in-range value is well formed.
pub proof fn lemma_from_wf(value: i64)
    requires
        in_value_range(value as int),
    ensures
        Measurement::from_spec(value).wf(),
{
}

/// The sum of a well-formed aggregate stays far inside `i128`.
pub proof fn lemma_sum_in_i128(m: Measurement)
    requires
        m.wf(),
    ensures
        -(MAX_TENTHS as int) * (u64::MAX as int) <= m.sum <= (MAX_TENTHS as int) * (u64::MAX as int),
{
    assert(m.count * m.min >= -(MAX_TENTHS as int) * (u64::MAX as int)) by (nonlinear_arith)
        requires
            1 <= m.count <= u64::MAX,
            -MAX_TENTHS <= m.min,
    ;
    assert(m.count * m.max <= (MAX_TENTHS as int) * (u64::MAX as int)) by (nonlinear_arith)
        requires
            1 <= m.count <= u64::MAX,
            m.max <= MAX_TENTHS,
    ;
}

/// Recording an in-range value keeps an aggregate well formed.
pub proof fn lemma_recorded_wf(m: Measurement, value: i64)
    requires
        m.wf(),
        in_value_range(value as int),
        m.count < u64::MAX,
    ensures
        m.recorded(value).wf(),
{
    lemma_sum_in_i128(m);
    let r = m.recorded(value);
    assert((m.count + 1) * r.min <= m.sum + value && m.sum + value <= (m.count + 1) * r.max)
        by (nonlinear_arith)
        requires
            1 <= m.count,
            r.min <= m.min,
            r.min <= value,
            m.max <= r.max,
            value <= r.max,
            m.count * m.min <= m.sum <= m.count * m.max,
    ;
}

/// Merging well-formed aggregates keeps the result well formed.
pub proof fn lemma_merged_wf(a: Measurement, b: Measurement)
    requires
        a.wf(),
        b.wf(),
        a.count + b.count <= u64::MAX,
    ensures
        a.merged(b).wf(),
{
    lemma_sum_in_i128(a);
    lemma_sum_in_i128(b);
    let r = a.merged(b);
    assert((a.count + b.count) * r.min <= a.sum + b.sum && a.sum + b.sum <= (a.count + b.count)
        * r.max) by (nonlinear_arith)
        requires
            1 <= a.count,
            1 <= b.count,
            r.min <= a.min,
            r.min <= b.min,
            a.max <= r.max,
            b.max <= r.max,
            a.count * a.min <= a.sum <= a.count * a.max,
            b.count * b.min <= b.sum <= b.count * b.max,
    ;
}

/// The rounded mean of a well-formed aggregate lies between its extremes.
pub proof fn lemma_round_half_up_bounds(s: int, c: int, lo: int, hi: int)
    requires
        1 <= c,
        c * lo <= s <= c * hi,
    ensures
        lo <= round_half_up(s, c) <= hi,
{
    let d = 2 * c;
    lemma_fundamental_div_mod_converse(lo * d + c, d, lo, c);
    assert(2 * (c * lo) + c == lo * (2 * c) + c) by (nonlinear_arith);
    lemma_div_is_ordered(lo * d + c, 2 * s + c, d);
    lemma_fundamental_div_mod_converse(hi * d + c, d, hi, c);
    assert(2 * (c * hi) + c == hi * (2 * c) + c) by (nonlinear_arith);
    lemma_div_is_ordered(2 * s + c, hi * d + c, d);
}

/// Recording a value is the same as merging in a fresh aggregate made
/// from that value alone.
pub proof fn lemma_record_is_merge_single(a: Measurement, value: i64)
    ensures
        a.recorded(value) == a.merged(first_stats(value)),
{
}

/// A value recorded after a merge can instead be recorded before it:
/// the merge and the record commute, which lets a chunk's records be
/// folded locally and merged later.
pub proof fn lemma_merge_record_assoc(a: Measurement, b: Measurement, value: i64)
    requires
        a.wf(),
        b.wf(),
        in_value_range(value as int),
        a.count + b.count < u64::MAX,
    ensures
        a.merged(b).recorded(value) == a.merged(b.recorded(value)),
{
    lemma_sum_in_i128(a);
    lemma_sum_in_i128(b);
}

/// Merging aggregates is commutative: both orders give the same result
/// in every field.
pub proof fn lemma_merge_commutes(a: Measurement, b: Measurement)
    requires
        a.wf(),
        b.wf(),
    ensures
        a.merged(b) == b.merged(a),
{
}

/// Merging aggregates is associative, so the final result is independent
/// of the order in which per-chunk results are folded together.
pub proof fn lemma_merge_associative(a: Measurement, b: Measurement, c: Measurement)
    requires
        a.wf(),
        b.wf(),
        c.wf(),
        a.count + b.count + c.count <= u64::MAX,
    ensures
        a.merged(b).merged(c) == a.merged(b.merged(c)),
{
    lemma_sum_in_i128(a);
    lemma_sum_in_i128(b);
    lemma_sum_in_i128(c);
}

} // verus!
