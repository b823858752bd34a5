//! Running statistics of one station, and the laws of combining them.

use vstd::prelude::*;

verus! {

/// The statistics of a collection of readings, as mathematics sees them:
/// how many readings, their sum, the least and the greatest, all in tenths.
/// Of no readings, all four are zero.
pub struct Summary {
    pub count: nat,
    pub sum: int,
    pub min: int,
    pub max: int,
}

impl Summary {
    /// The summary of no readings.
    pub open spec fn empty() -> Summary {
        Summary { count: 0, sum: 0, min: 0, max: 0 }
    }

    /// The summary of the one reading `r`.
    pub open spec fn single(r: int) -> Summary {
        Summary { count: 1, sum: r, min: r, max: r }
    }

    /// The summary of the readings of `self` and of `other` together. The
    /// extremes of a summary without readings are not looked at.
    pub open spec fn merge(self, other: Summary) -> Summary {
        if self.count == 0 && other.count == 0 {
            Summary::empty()
        } else if self.count == 0 {
            other
        } else if other.count == 0 {
            self
        } else {
            Summary {
                count: self.count + other.count,
                sum: self.sum + other.sum,
                min: if other.min < self.min { other.min } else { self.min },
                max: if other.max > self.max { other.max } else { self.max },
            }
        }
    }

    /// The summary after one more reading `r`.
    pub open spec fn record(self, r: int) -> Summary {
        self.merge(Summary::single(r))
    }

    /// A summary that some collection of readings can have: without
    /// readings it is `empty`, and otherwise the sum lies between `count`
    /// times the least and `count` times the greatest reading.
    pub open spec fn consistent(self) -> bool {
        if self.count == 0 {
            self == Summary::empty()
        } else {
            &&& self.min <= self.max
            &&& self.count * self.min <= self.sum
            &&& self.sum <= self.count * self.max
        }
    }

    /// The mean in tenths, rounded to the nearest tenth, a half rounding
    /// towards positive infinity.
    pub open spec fn mean_tenths(self) -> int {
        (2 * self.sum + self.count) / (2 * (self.count as int))
    }

    /// Merging summaries does not depend on their order.
    pub proof fn merge_commutative(a: Summary, b: Summary)
        ensures
            a.merge(b) == b.merge(a),
    {
    }

    /// Merging summaries does not depend on how they are grouped.
    pub proof fn merge_associative(a: Summary, b: Summary, c: Summary)
        ensures
            a.merge(b).merge(c) == a.merge(b.merge(c)),
    {
    }

    /// The empty summary is neutral for merging consistent summaries.
    pub proof fn merge_empty(a: Summary)
        requires
            a.consistent(),
        ensures
            a.merge(Summary::empty()) == a,
            Summary::empty().merge(a) == a,
    {
    }

    /// Merging keeps summaries consistent.
    pub proof fn merge_consistent(a: Summary, b: Summary)
        requires
            a.consistent(),
            b.consistent(),
        ensures
            a.merge(b).consistent(),
    {
        let m = a.merge(b);
        if a.count > 0 && b.count > 0 {
            assert(a.count * m.min <= a.count * a.min) by (nonlinear_arith)
                requires
                    m.min <= a.min,
                    a.count >= 0,
            ;
            assert(b.count * m.min <= b.count * b.min) by (nonlinear_arith)
                requires
                    m.min <= b.min,
                    b.count >= 0,
            ;
            assert(a.count * a.max <= a.count * m.max) by (nonlinear_arith)
                requires
                    a.max <= m.max,
                    a.count >= 0,
            ;
            assert(b.count * b.max <= b.count * m.max) by (nonlinear_arith)
                requires
                    b.max <= m.max,
                    b.count >= 0,
            ;
            assert((a.count + b.count) * m.min == a.count * m.min + b.count * m.min)
                by (nonlinear_arith);
            assert((a.count + b.count) * m.max == a.count * m.max + b.count * m.max)
                by (nonlinear_arith);
        }
    }

    /// The mean of a consistent summary lies between its extremes.
    pub proof fn mean_within_extremes(a: Summary)
        requires
            a.consistent(),
            a.count > 0,
        ensures
            a.min <= a.mean_tenths() <= a.max,
    {
        let d: int = 2 * (a.count as int);
        let n: int = 2 * a.sum + a.count;
        let q: int = n / d;
        vstd::arithmetic::div_mod::lemma_fundamental_div_mod(n, d);
        vstd::arithmetic::div_mod::lemma_mod_bound(n, d);
        assert(d * a.min <= n) by (nonlinear_arith)
            requires
                a.count * a.min <= a.sum,
                d == 2 * a.count,
                n == 2 * a.sum + a.count,
                a.count > 0,
        ;
        assert(n < d * (a.max + 1)) by (nonlinear_arith)
            requires
                a.sum <= a.count * a.max,
                d == 2 * a.count,
                n == 2 * a.sum + a.count,
                a.count > 0,
        ;
        assert(a.min <= q) by (nonlinear_arith)
            requires
                d * a.min <= n,
                n == d * q + n % d,
                n % d < d,
                d > 0,
        ;
        assert(q <= a.max) by (nonlinear_arith)
            requires
                n < d * (a.max + 1),
                n == d * q + n % d,
                0 <= n % d,
                d > 0,
        ;
    }
}

/// The running statistics of one station: the sum of its readings, their
/// number, and the least and greatest reading, all in tenths of a degree.
#[derive(Clone, Copy, Debug, PartialEq, Eq, Structural)]
pub struct StationStats {
    pub temperature_sum: i128,
    pub entry_count: u64,
    pub min: i16,
    pub max: i16,
}

impl View for StationStats {
    type V = Summary;

    open spec fn view(&self) -> Summary {
        Summary {
            count: self.entry_count as nat,
            sum: self.temperature_sum as int,
            min: self.min as int,
            max: self.max as int,
        }
    }
}

impl Default for StationStats {
    /// The statistics of a station of which no reading has been seen. Its
    /// extremes are placeholders: the first reading replaces them.
    fn default() -> (r: Self)
        ensures
            r@ == Summary::empty(),
            r.wf(),
    {
        StationStats { temperature_sum: 0, entry_count: 0, min: 0, max: 0 }
    }
}

impl StationStats {
    /// Statistics that some collection of readings can have.
    pub open spec fn wf(&self) -> bool {
        self@.consistent()
    }

    /// The statistics of the one reading `reading`.
    pub fn first(reading: i16) -> (r: Self)
        ensures
            r@ == Summary::single(reading as int),
            r.wf(),
    {
        StationStats {
            temperature_sum: reading as i128,
            entry_count: 1,
            min: reading,
            max: reading,
        }
    }

    /// Folds one more reading in. The first reading sets both extremes.
    pub fn record(&mut self, reading: i16)
        requires
            old(self).wf(),
            old(self).entry_count < u64::MAX,
        ensures
            final(self).wf(),
            final(self)@ == old(self)@.record(reading as int),
    {
        let other = StationStats::first(reading);
        self.merge(&other);
    }

    /// Folds the statistics of further readings of the same station in.
    pub fn merge(&mut self, other: &StationStats)
        requires
            old(self).wf(),
            other.wf(),
            old(self).entry_count + other.entry_count <= u64::MAX,
        ensures
            final(self).wf(),
            final(self)@ == old(self)@.merge(other@),
    {
        proof {
            Summary::merge_consistent(self@, other@);
            Self::sum_bounded(*self);
            Self::sum_bounded(*other);
        }
        if other.entry_count == 0 {
        } else if self.entry_count == 0 {
            *self = *other;
        } else {
            self.entry_count = self.entry_count + other.entry_count;
            self.temperature_sum = self.temperature_sum + other.temperature_sum;
            if other.min < self.min {
                self.min = other.min;
            }
            if other.max > self.max {
                self.max = other.max;
            }
        }
    }

    /// The mean reading in tenths, rounded to the nearest tenth, a half
    /// rounding towards positive infinity. Computed in integers.
    pub fn mean(&self) -> (r: i16)
        requires
            self.wf(),
            self.entry_count > 0,
        ensures
            r == self@.mean_tenths(),
            self.min <= r <= self.max,
    {
        proof {
            Summary::mean_within_extremes(self@);
            Self::sum_bounded(*self);
        }
        let d: i128 = 2 * (self.entry_count as i128);
        let n: i128 = 2 * self.temperature_sum + (self.entry_count as i128);
        if n >= 0 {
            let q: i128 = n / d;
            q as i16
        } else {
            let m: i128 = -n;
            let up: i128 = (m + d - 1) / d;
            proof {
                let di: int = d as int;
                let ni: int = n as int;
                let t: int = m + d - 1;
                vstd::arithmetic::div_mod::lemma_fundamental_div_mod(t, di);
                vstd::arithmetic::div_mod::lemma_mod_bound(t, di);
                let r: int = di - 1 - (t % di);
                assert(ni == di * (-up) + r) by (nonlinear_arith)
                    requires
                        t == di * up + t % di,
                        t == -ni + di - 1,
                        r == di - 1 - (t % di),
                ;
                vstd::arithmetic::div_mod::lemma_fundamental_div_mod_converse(
                    ni,
                    di,
                    -up as int,
                    r,
                );
            }
            (-up) as i16
        }
    }

    /// The sum of well-formed statistics is far from the limits of `i128`.
    proof fn sum_bounded(s: StationStats)
        requires
            s.wf(),
        ensures
            -0x8000_0000_0000_0000_0000 <= s.temperature_sum <= 0x8000_0000_0000_0000_0000,
    {
        let c = s.entry_count as int;
        if c > 0 {
            assert(c * s.min >= -0x8000_0000_0000_0000_0000) by (nonlinear_arith)
                requires
                    0 <= c <= 0xffff_ffff_ffff_ffff,
                    s.min >= -0x8000,
            ;
            assert(c * s.max <= 0x8000_0000_0000_0000_0000) by (nonlinear_arith)
                requires
                    0 <= c <= 0xffff_ffff_ffff_ffff,
                    s.max <= 0x8000,
            ;
        }
    }
}

} // verus!
