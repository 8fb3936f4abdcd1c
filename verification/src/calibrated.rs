//! What calibration means, in exact numbers.
use crate::double::{Datum, Double};
use crate::exact;
use crate::ladder;
use crate::meaning;
use crate::profile;
use crate::profile::ThermalDrift;
use vstd::arithmetic::power2::*;
use vstd::prelude::*;

verus! {

/// Cycles over operations, as calibration takes them: the quotient, up to rounding.
pub proof fn lemma_cycles_over_is_the_quotient(cycles: u64, ops: u64, otherwise: Datum)
    ensures
        ops > 0 ==> exact::near(
            exact::value(profile::cycles_over(cycles, ops, otherwise)),
            cycles as real / ops as real,
            9,
        ),
        ops == 0 ==> profile::cycles_over(cycles, ops, otherwise) == otherwise,
{
    if ops > 0 {
        meaning::lemma_quotient_of_counts(cycles as nat, ops as nat);
    }
}

/// Cycles per operation in the second half of a load, exactly; those of the first where
/// it has no operations.
pub open spec fn late_cost(drift: ThermalDrift, early: real) -> real {
    if drift.ops > 0 {
        drift.cycles as real / drift.ops as real
    } else {
        early
    }
}

/// The thermal coefficient is how far the cycles per operation drifted, relative to those
/// of the first half and per second, whichever way they drifted, up to rounding.
pub proof fn lemma_coefficient_is_the_drift(drift: ThermalDrift, early: Double, seconds: nat)
    requires
        drift.early == Some(early),
        early@.finite(),
        exact::floor() <= exact::value(early@),
        2 as real * exact::value(early@) <= exact::ceiling(),
        0 < seconds <= u64::MAX,
    ensures
        ({
            let e = exact::value(early@);
            let late = late_cost(drift, e);
            let c = exact::value(drift.slowdown(seconds));
            let drifted = exact::size(late - e);
            &&& drift.slowdown(seconds).finite()
            &&& exact::size(c * seconds as real * e - drifted) <= meaning::hair() * (late + e)
            &&& drifted > meaning::hair() * (late + e) ==> c > 0 as real
            &&& late == e && drift.ops == 0 ==> c == 0 as real
        }),
{
    let e = exact::value(early@);
    let late = late_cost(drift, e);
    let g = exact::grain();
    let s = exact::speck();
    let f = exact::floor();
    let h = meaning::hair();
    let k = exact::ceiling();
    exact::lemma_constants();
    meaning::lemma_hair();
    exact::lemma_units(early@);
    exact::lemma_units(Datum::zero(false));
    ladder::lemma_positive(0);
    let late_double = drift.late_cycles();
    if drift.ops > 0 {
        meaning::lemma_quotient_of_counts(drift.cycles as nat, drift.ops as nat);
    } else {
        assert(0 as real <= 9 as real * g * exact::size(e)) by (nonlinear_arith)
            requires
                g > 0 as real,
                exact::size(e) >= 0 as real,
        ;
    }
    meaning::lemma_relative_difference(late_double, late, 9, early@);
    let r = late_double.minus(early@).over(early@);
    let size = r.absolute();
    exact::lemma_units(r);
    exact::lemma_units(size);
    let v = exact::value(size);
    let t = late / e;
    assert(t >= 0 as real && t * e == late) by (nonlinear_arith)
        requires
            t == late / e,
            late >= 0 as real,
            e > 0 as real,
    ;
    let far = exact::size(t - 1 as real);
    let gt = g * (t + 1 as real);
    assert(30 as real * g * (t + 1 as real) == 30 as real * gt && gt >= g && 1000 as real * gt <= t
        + 1 as real) by (nonlinear_arith)
        requires
            gt == g * (t + 1 as real),
            g > 0 as real,
            t >= 0 as real,
            g * 0x10_0000_0000_0000 as real == 1 as real,
    ;
    assert(exact::size(v - far) <= 30 as real * gt);
    assert(v >= 0 as real && v <= 2 as real * (t + 1 as real));
    // Over the seconds.
    let n = seconds as real;
    let w = Datum::whole(seconds as int);
    exact::lemma_whole_exact(seconds as int);
    let m = exact::value(w);
    assert(f * f <= 1 as real) by (nonlinear_arith)
        requires
            f <= g,
            f > 0 as real,
            g * 0x10_0000_0000_0000 as real == 1 as real,
    ;
    exact::lemma_near_rounds(m, n);
    exact::lemma_near_size(m, n, 2);
    let u = v / m;
    assert(u * m == v && u >= 0 as real && u <= 2 as real * v) by (nonlinear_arith)
        requires
            u == v / m,
            2 as real * m >= n,
            n >= 1 as real,
            v >= 0 as real,
    ;
    assert(t <= k * k) by (nonlinear_arith)
        requires
            t * e == late,
            late <= k,
            f <= e,
            f * k == 1 as real,
            f > 0 as real,
            k > 0 as real,
            t >= 0 as real,
    {
        assert(t * f <= t * e);
        assert((t * f) * k <= k * k);
        assert((t * f) * k == t * (f * k));
    }
    meaning::lemma_four_times_below_limit();
    exact::lemma_over_exact(size, w);
    let c = exact::value(drift.slowdown(seconds));
    assert(drift.slowdown(seconds) == size.over(w));
    // What rounding leaves of it.
    assert(exact::size(u * n - v) <= 4 as real * g * v) by (nonlinear_arith)
        requires
            u * m == v,
            exact::size(m - n) <= 2 as real * g * n,
            2 as real * m >= n,
            u >= 0 as real,
            n >= 1 as real,
            g > 0 as real,
    {
        assert(u * n - v == u * (n - m));
        assert(exact::size(u * (n - m)) == u * exact::size(n - m));
        assert(u * exact::size(n - m) <= u * (2 as real * g * n));
        assert(u * n <= 2 as real * (u * m));
        assert(u * (2 as real * g * n) == 2 as real * g * (u * n));
    }
    assert(f * f * 0x1000 as real <= g) by (nonlinear_arith)
        requires
            f <= g,
            f > 0 as real,
            g * 0x10_0000_0000_0000 as real == 1 as real,
    {
        assert(f * f <= g * g);
        assert((g * 0x1000 as real) * g <= g);
    }
    assert(s * n <= g) by (nonlinear_arith)
        requires
            s * 0x10_0000_0000_0000 as real <= f * f,
            f <= g,
            f > 0 as real,
            s > 0 as real,
            g * 0x10_0000_0000_0000 as real == 1 as real,
            n <= 0x1_0000_0000_0000_0000 as real,
            f * f * 0x1000 as real <= g,
    {
        assert(s * n <= s * 0x1_0000_0000_0000_0000 as real);
        assert((s * 0x10_0000_0000_0000 as real) * 0x1000 as real <= (f * f) * 0x1000 as real);
    }
    let gv = g * v;
    assert(gv >= 0 as real && 4 as real * g * v == 4 as real * gv && gv <= 2 as real * gt
        && 1000 as real * gv <= v) by (nonlinear_arith)
        requires
            gv == g * v,
            gt == g * (t + 1 as real),
            v >= 0 as real,
            v <= 2 as real * (t + 1 as real),
            g > 0 as real,
            g * 0x10_0000_0000_0000 as real == 1 as real,
    ;
    assert(exact::size(c * n - u * n) <= 2 as real * gv + g) by (nonlinear_arith)
        requires
            exact::size(c - u) <= exact::size(u) * g + s,
            exact::size(u * n - v) <= 4 as real * gv,
            u >= 0 as real,
            n >= 1 as real,
            s * n <= g,
            gv == g * v,
            1000 as real * gv <= v,
            g > 0 as real,
    {
        assert(c * n - u * n == (c - u) * n);
        assert(exact::size((c - u) * n) == exact::size(c - u) * n);
        assert(exact::size(c - u) * n <= (u * g + s) * n);
        assert((u * g + s) * n == g * (u * n) + s * n);
        assert(u * n <= 2 as real * v);
        assert(g * (u * n) <= g * (2 as real * v));
    }
    let x = c * n;
    assert(exact::size(x - far) <= 50 as real * gt);
    // In terms of the early cycles.
    let drifted = exact::size(late - e);
    assert(far * e == drifted) by (nonlinear_arith)
        requires
            t * e == late,
            far == exact::size(t - 1 as real),
            drifted == exact::size(late - e),
            e > 0 as real,
    {
        assert((t - 1 as real) * e == late - e);
    }
    assert(exact::size(x * e - drifted) <= h * (late + e)) by (nonlinear_arith)
        requires
            far * e == drifted,
            exact::size(x - far) <= 50 as real * gt,
            gt == g * (t + 1 as real),
            t * e == late,
            h == 0x1000 as real * g,
            e > 0 as real,
            g > 0 as real,
            t >= 0 as real,
    {
        assert(x * e - drifted == (x - far) * e);
        assert(exact::size((x - far) * e) == exact::size(x - far) * e);
        assert(exact::size(x - far) * e <= (50 as real * gt) * e);
        assert((50 as real * gt) * e == 50 as real * g * (late + e));
    }
    if drifted > h * (late + e) {
        assert(c > 0 as real) by (nonlinear_arith)
            requires
                exact::size((c * n) * e - drifted) <= h * (late + e),
                drifted > h * (late + e),
                n >= 1 as real,
                e > 0 as real,
        {
            assert((c * n) * e > 0 as real);
            if c <= 0 as real {
                assert(c * n <= 0 as real);
                assert((c * n) * e <= 0 as real);
            }
        }
    }
    if drift.ops == 0 {
        assert(late_double == early@);
        assert(late_double.minus(early@) == Datum::zero(false));
        lemma_zero_over(early@);
        lemma_zero_over(w);
    }
}

/// Zero over a positive number is zero.
proof fn lemma_zero_over(x: Datum)
    requires
        x.finite(),
        exact::value(x) > 0 as real,
    ensures
        Datum::zero(false).over(x) == Datum::zero(false),
{
    exact::lemma_units(x);
    ladder::lemma_positive(0);
    if let Datum::Signed { rung, .. } = x {
        ladder::lemma_positive(rung);
        assert(0 * ladder::one() == 0 && 0 * ladder::mag(rung) == 0);
        ladder::lemma_round_exact(0, ladder::mag(rung));
    }
}

/// Without a first half that took any cycles, the coefficient is a thousandth.
pub proof fn lemma_coefficient_without_a_first_half(drift: ThermalDrift, seconds: nat)
    requires
        drift.early is None || exact::value(drift.early->Some_0@) <= 0 as real,
    ensures
        exact::near(exact::value(drift.slowdown(seconds)), 1 as real / 1000 as real, 2),
{
    let e = 1 as real / 1000 as real;
    exact::lemma_constants();
    exact::lemma_ratio_exact(1, 1000);
    exact::lemma_units(Datum::zero(false));
    exact::lemma_value_order(Datum::zero(false), drift.early_cycles());
    ladder::lemma_positive(0);
    assert(exact::floor() * exact::floor() <= e) by (nonlinear_arith)
        requires
            exact::floor() <= exact::grain(),
            exact::floor() > 0 as real,
            exact::grain() * 0x10_0000_0000_0000 as real == 1 as real,
            e * 1000 as real == 1 as real,
    ;
    exact::lemma_near_rounds(exact::value(Datum::ratio(1, 1000)), e);
}

} // verus!
