//! What the pipeline means, in exact numbers: from counts and calibrated numbers to
//! the decision.
use crate::double::{Datum, Double};
use crate::exact;
use crate::fold;
use crate::ladder;
use crate::ladder::TOP;
use crate::laws;
use crate::meaning;
use crate::order;
use crate::types::{Decision, HardwareProfile, RawMeasurement};
use vstd::arithmetic::power2::*;
use vstd::prelude::*;

verus! {

/// A number that can be divided by, and its inverse too, without trouble.
pub open spec fn usable(x: real) -> bool {
    4 as real * exact::floor() <= x && 4 as real * x <= exact::ceiling()
}

/// The baseline that a measurement is compared with: one where the filed one is not
/// positive.
pub open spec fn baseline_for(m: RawMeasurement, p: HardwareProfile) -> real {
    let b = p.baseline(m.operation, m.precision);
    if b is Signed && exact::value(b) > 0 as real {
        exact::value(b)
    } else {
        1 as real
    }
}

/// The exact deviation from the expected throughput: how many operations a cycle gets
/// done, in parts of what the baseline promises, less one.
pub open spec fn exact_deviation(m: RawMeasurement, p: HardwareProfile) -> real {
    meaning::pace(m) * baseline_for(m, p) - 1 as real
}

/// The exact slowdown that temperature explains: so much per degree.
pub open spec fn exact_heat(m: RawMeasurement, p: HardwareProfile) -> real {
    match (m.temp_mc, p.reference_temp_mc) {
        (Some(t), Some(r)) => exact::value(p.thermal(m.operation, m.precision)) * ((t - r) as real
            / 1000 as real),
        _ => 0 as real,
    }
}

/// The sizes that rounding is measured by.
pub open spec fn extent(m: RawMeasurement, p: HardwareProfile) -> real {
    meaning::pace(m) * baseline_for(m, p) + exact::size(exact_heat(m, p)) + exact::size(
        exact::value(p.spread(m.operation, m.precision).0),
    ) + 1 as real
}

/// How far a measurement is from the calibrated mean, exactly.
pub open spec fn exact_gap(m: RawMeasurement, p: HardwareProfile) -> real {
    exact_deviation(m, p) + exact_heat(m, p) - exact::value(
        p.spread(m.operation, m.precision).0,
    )
}

/// The width of the calibrated distribution: 0.01 where the filed one is zero.
pub open spec fn width_for(m: RawMeasurement, p: HardwareProfile) -> real {
    let s = exact::size(exact::value(p.spread(m.operation, m.precision).1));
    if s == 0 as real {
        1 as real / 100 as real
    } else {
        s
    }
}

/// The calibrated numbers are of a size that can be computed with.
pub open spec fn sensible(m: RawMeasurement, p: HardwareProfile) -> bool {
    let b = p.baseline(m.operation, m.precision);
    let t = p.thermal(m.operation, m.precision);
    let s = p.spread(m.operation, m.precision);
    &&& b.finite()
    &&& usable(baseline_for(m, p))
    &&& t.finite()
    &&& exact::size(exact::value(t)) <= exact::ceiling()
    &&& s.0.finite()
    &&& exact::size(exact::value(s.0)) <= exact::ceiling()
    &&& s.1.finite()
}

/// Operations per cycle, in doubles: near the exact pace.
proof fn lemma_throughput(m: RawMeasurement)
    ensures
        ({
            let a = fold::actual_throughput(fold::cycles_per_op(m));
            &&& a.finite()
            &&& exact::near(exact::value(a), meaning::pace(m), 13)
            &&& 0 as real <= meaning::pace(m)
            &&& 2 as real * meaning::pace(m) <= exact::ceiling()
        }),
{
    let n: nat = if m.op_count == 0 {
        1
    } else {
        m.op_count as nat
    };
    let k = fold::cycles_per_op(m);
    let a = fold::actual_throughput(k);
    exact::lemma_constants();
    exact::lemma_whole_exact(1);
    exact::lemma_units(k);
    ladder::lemma_positive(0);
    meaning::lemma_quotient_of_counts(m.cycles as nat, n);
    let w = 0x1_0000_0000_0000_0000 as real;
    if m.cycles == 0 {
        assert(a == Datum::zero(false));
        exact::lemma_units(a);
        assert(13 as real * exact::grain() * 0 as real == 0 as real) by (nonlinear_arith);
    } else {
        let c = m.cycles as real / n as real;
        let t = meaning::pace(m);
        let v = exact::value(k);
        assert(t == n as real / m.cycles as real);
        assert(t == 1 as real / c && t > 0 as real && t <= w && t * w >= 1 as real)
            by (nonlinear_arith)
            requires
                t == n as real / m.cycles as real,
                c == m.cycles as real / n as real,
                1 as real <= n as real <= w,
                1 as real <= m.cycles as real <= w,
        {
            let x = n as real;
            let y = m.cycles as real;
            assert(t * y == x);
            assert(c * x == y);
            assert(c > 0 as real);
            assert((t * c) * x == x);
            assert(t * c == 1 as real);
        }
        meaning::lemma_counts_are_moderate(t);
        exact::lemma_near_inverse(v, c, 9);
        exact::lemma_near_size(1 as real / v, t, 10);
        exact::lemma_over_exact(Datum::whole(1), k);
        exact::lemma_near_rounds(exact::value(a), 1 as real / v);
        exact::lemma_near_chain(exact::value(a), 1 as real / v, 2, t, 10);
    }
}

/// Operations per cycle that are expected, in doubles: near one over the baseline.
proof fn lemma_expected(m: RawMeasurement, p: HardwareProfile)
    requires
        p.baseline(m.operation, m.precision).finite(),
        usable(baseline_for(m, p)),
    ensures
        ({
            let e = fold::expected_throughput(m, p);
            &&& e.finite()
            &&& exact::near(exact::value(e), 1 as real / baseline_for(m, p), 2)
            &&& exact::floor() <= exact::value(e) <= exact::ceiling()
            &&& exact::value(e) > 0 as real
        }),
{
    let baseline = p.baseline(m.operation, m.precision);
    let b = baseline_for(m, p);
    let e = fold::expected_throughput(m, p);
    let f = exact::floor();
    let c = exact::ceiling();
    exact::lemma_constants();
    exact::lemma_whole_exact(1);
    exact::lemma_units(baseline);
    ladder::lemma_positive(0);
    let i = 1 as real / b;
    assert(i >= 4 as real * f && 4 as real * i <= c && i * b == 1 as real) by (nonlinear_arith)
        requires
            i == 1 as real / b,
            4 as real * f <= b,
            4 as real * b <= c,
            f * c == 1 as real,
            f > 0 as real,
    {
        assert(i * b == 1 as real);
        assert((i * f) * 4 as real <= 1 as real);
        assert(((i * f) * c) * 4 as real <= c);
        assert((i * f) * c == i * (f * c));
        assert((4 as real * b) * i <= c * i);
        assert(4 as real * f <= (c * i) * f);
        assert((c * i) * f == i * (f * c));
    }
    if exact::value(baseline) > 0 as real {
        exact::lemma_over_exact(Datum::whole(1), baseline);
        assert(f * f <= i) by (nonlinear_arith)
            requires
                i >= 4 as real * f,
                f > 0 as real,
                f <= exact::grain(),
                exact::grain() * 0x10_0000_0000_0000 as real == 1 as real,
        ;
        exact::lemma_near_rounds(exact::value(e), i);
        exact::lemma_near_size(exact::value(e), i, 2);
    } else {
        assert(exact::size(1 as real - 1 as real / 1 as real) == 0 as real);
        assert(0 as real <= 2 as real * exact::grain() * exact::size(1 as real / 1 as real))
            by (nonlinear_arith)
            requires
                exact::grain() > 0 as real,
        ;
    }
}

/// The deviation of a measurement is its pace in parts of what the baseline promises,
/// less one, up to rounding.
pub proof fn lemma_deviation_is_relative(m: RawMeasurement, p: HardwareProfile)
    requires
        p.baseline(m.operation, m.precision).finite(),
        usable(baseline_for(m, p)),
    ensures
        fold::deviation_of(m, p).finite(),
        exact::size(exact::value(fold::deviation_of(m, p)) - exact_deviation(m, p)) <= 40 as real
            * exact::grain() * (meaning::pace(m) * baseline_for(m, p) + 1 as real),
        meaning::pace(m) * baseline_for(m, p) >= 0 as real,
{
    let actual = fold::actual_throughput(fold::cycles_per_op(m));
    let expected = fold::expected_throughput(m, p);
    let t = meaning::pace(m);
    let b = baseline_for(m, p);
    let v = exact::value(expected);
    let g = exact::grain();
    exact::lemma_constants();
    exact::lemma_units(expected);
    ladder::lemma_positive(0);
    lemma_throughput(m);
    lemma_expected(m, p);
    meaning::lemma_relative_difference(actual, t, 13, expected);
    assert(1 as real / b > 0 as real) by (nonlinear_arith)
        requires
            b > 0 as real,
    ;
    exact::lemma_near_inverse(v, 1 as real / b, 2);
    let (i, r) = (1 as real / v, t * b);
    assert(1 as real / (1 as real / b) == b) by (nonlinear_arith)
        requires
            b > 0 as real,
    ;
    let q = t / v;
    assert(q == t * i) by (nonlinear_arith)
        requires
            q == t / v,
            i == 1 as real / v,
            v > 0 as real,
    ;
    assert(r >= 0 as real) by (nonlinear_arith)
        requires
            r == t * b,
            t >= 0 as real,
            b > 0 as real,
    ;
    assert(exact::size(q - r) <= 3 as real * g * r) by (nonlinear_arith)
        requires
            q == t * i,
            r == t * b,
            exact::size(i - b) <= 3 as real * g * b,
            t >= 0 as real,
            b > 0 as real,
    {
        assert(q - r == t * (i - b));
        assert(exact::size(t * (i - b)) == t * exact::size(i - b));
        assert(t * exact::size(i - b) <= t * (3 as real * g * b));
        assert(t * (3 as real * g * b) == 3 as real * g * r);
    }
    let d = exact::value(fold::deviation_of(m, p));
    assert(exact::size(d - (r - 1 as real)) <= 40 as real * g * (r + 1 as real)) by (nonlinear_arith)
        requires
            exact::size(d - (q - 1 as real)) <= 30 as real * g * (q + 1 as real),
            exact::size(q - r) <= 3 as real * g * r,
            r >= 0 as real,
            g > 0 as real,
            g * 0x10_0000_0000_0000 as real == 1 as real,
    {
        assert(exact::size(d - (r - 1 as real)) <= exact::size(d - (q - 1 as real)) + exact::size(
            q - r,
        ));
        assert(3 as real * g * r <= r);
        assert(q <= r + 3 as real * g * r);
        assert(30 as real * g * q <= 30 as real * g * (r + 3 as real * g * r));
        assert(g * (3 as real * g * r) <= g * (r * 1 as real / 100 as real)) by {
            assert(300 as real * g <= 1 as real);
            assert((300 as real * g) * r <= r);
        }
    }
}

/// The slowdown that temperature explains is so much per degree, for each degree, up to
/// rounding.
pub proof fn lemma_heat_is_per_degree(m: RawMeasurement, p: HardwareProfile)
    requires
        m.comparable(p.reference_temp_mc),
        p.thermal(m.operation, m.precision).finite(),
        exact::size(exact::value(p.thermal(m.operation, m.precision))) <= exact::ceiling(),
    ensures
        fold::thermal_adjustment(m, p).finite(),
        exact::size(exact::value(fold::thermal_adjustment(m, p)) - exact_heat(m, p)) <= 10 as real
            * exact::grain() * (exact::size(exact_heat(m, p)) + 1 as real),
        exact::size(exact_heat(m, p)) <= exact::ceiling() * exact::ceiling(),
{
    let g = exact::grain();
    let s = exact::speck();
    let f = exact::floor();
    let c = exact::ceiling();
    exact::lemma_constants();
    ladder::lemma_positive(0);
    match (m.temp_mc, p.reference_temp_mc) {
        (Some(t), Some(r)) => {
            let coefficient = p.thermal(m.operation, m.precision);
            let k = exact::value(coefficient);
            let delta = t - r;
            let w = Datum::whole(delta);
            let thousand = Datum::whole(1000);
            let degrees = w.over(thousand);
            exact::lemma_whole_exact(delta);
            exact::lemma_whole_exact(1000);
            let x = delta as real;
            let d = x / 1000 as real;
            let vw = exact::value(w);
            let two64 = 0x1_0000_0000_0000_0000 as real;
            assert(exact::size(x) <= two64);
            assert(exact::size(d) <= two64);
            assert(s <= g) by (nonlinear_arith)
                requires
                    s * 0x10_0000_0000_0000 as real <= f * f,
                    f <= g,
                    f > 0 as real,
                    s > 0 as real,
                    g * 0x10_0000_0000_0000 as real == 1 as real,
            ;
            let u = vw / 1000 as real;
            assert(exact::size(u - d) <= g * exact::size(d) + s) by (nonlinear_arith)
                requires
                    u == vw / 1000 as real,
                    d == x / 1000 as real,
                    exact::size(vw - x) <= exact::size(x) * g + s,
                    s > 0 as real,
            {
                assert(exact::size(u - d) * 1000 as real == exact::size(vw - x));
                assert(exact::size(d) * 1000 as real == exact::size(x));
            }
            let gd = g * exact::size(d);
            assert(gd >= 0 as real && 100 as real * gd <= exact::size(d)) by (nonlinear_arith)
                requires
                    gd == g * exact::size(d),
                    g > 0 as real,
                    g * 0x10_0000_0000_0000 as real == 1 as real,
                    exact::size(d) >= 0 as real,
            ;
            assert(exact::size(u) <= 2 as real * exact::size(d) + 1 as real);
            lemma_degrees_below_limit(d);
            exact::lemma_over_exact(w, thousand);
            let v = exact::value(degrees);
            assert(exact::size(u) * g <= gd + gd + s) by (nonlinear_arith)
                requires
                    exact::size(u - d) <= gd + s,
                    gd == g * exact::size(d),
                    g > 0 as real,
                    100 as real * gd <= exact::size(d),
                    g * 0x10_0000_0000_0000 as real == 1 as real,
                    s > 0 as real,
            {
                assert(exact::size(u) <= exact::size(d) + gd + s);
                assert(exact::size(u) * g <= (exact::size(d) + gd + s) * g);
                assert(gd * g <= gd * 1 as real) by {
                    assert(gd >= 0 as real);
                    assert(g <= 1 as real);
                }
                assert(s * g <= s) by {
                    assert(g <= 1 as real);
                }
            }
            assert(exact::size(v - d) <= 3 as real * gd + 3 as real * s);
            // Times the coefficient.
            let a = k * d;
            let e = k * v;
            assert(exact_heat(m, p) == a);
            assert(exact::size(k) * s <= f) by (nonlinear_arith)
                requires
                    exact::size(k) <= c,
                    s * 0x10_0000_0000_0000 as real <= f * f,
                    f * c == 1 as real,
                    f > 0 as real,
                    s > 0 as real,
            {
                assert(exact::size(k) * s <= c * s);
                assert(c * (s * 0x10_0000_0000_0000 as real) <= c * (f * f));
                assert(c * (f * f) == f * (f * c));
            }
            assert(exact::size(a) == exact::size(k) * exact::size(d)) by (nonlinear_arith)
                requires
                    a == k * d,
            ;
            assert(exact::size(a) <= c * c) by (nonlinear_arith)
                requires
                    exact::size(a) == exact::size(k) * exact::size(d),
                    exact::size(k) <= c,
                    0 as real <= exact::size(d),
                    exact::size(d) <= c,
            ;
            assert(exact::size(e - a) <= 3 as real * g * exact::size(a) + 3 as real * f)
                by (nonlinear_arith)
                requires
                    e == k * v,
                    a == k * d,
                    exact::size(v - d) <= 3 as real * gd + 3 as real * s,
                    gd == g * exact::size(d),
                    exact::size(a) == exact::size(k) * exact::size(d),
                    exact::size(k) * s <= f,
            {
                assert(e - a == k * (v - d));
                assert(exact::size(k * (v - d)) == exact::size(k) * exact::size(v - d));
                assert(exact::size(k) * exact::size(v - d) <= exact::size(k) * (3 as real * gd
                    + 3 as real * s)) by {
                    assert(exact::size(k) >= 0 as real);
                }
                assert(exact::size(k) * gd == g * exact::size(a));
            }
            let ga = g * exact::size(a);
            assert(ga >= 0 as real && 100 as real * ga <= exact::size(a)) by (nonlinear_arith)
                requires
                    ga == g * exact::size(a),
                    g > 0 as real,
                    g * 0x10_0000_0000_0000 as real == 1 as real,
                    exact::size(a) >= 0 as real,
            ;
            assert(3 as real * g * exact::size(a) == 3 as real * ga) by (nonlinear_arith)
                requires
                    ga == g * exact::size(a),
            ;
            assert(f <= 1 as real) by (nonlinear_arith)
                requires
                    f <= g,
                    g * 0x10_0000_0000_0000 as real == 1 as real,
            ;
            meaning::lemma_four_times_below_limit();
            assert(exact::size(e) <= 2 as real * exact::size(a) + 3 as real);
            exact::lemma_times_exact(coefficient, degrees);
            let got = exact::value(fold::thermal_adjustment(m, p));
            assert(exact::size(e) * g <= 2 as real * ga + 3 as real * g) by (nonlinear_arith)
                requires
                    exact::size(e) <= 2 as real * exact::size(a) + 3 as real,
                    ga == g * exact::size(a),
                    g > 0 as real,
            ;
            assert(10 as real * g * (exact::size(a) + 1 as real) == 10 as real * ga + 10 as real * g)
                by (nonlinear_arith)
                requires
                    ga == g * exact::size(a),
            ;
        },
        _ => {
            exact::lemma_units(Datum::zero(false));
            assert(0 as real <= 10 as real * g * (exact::size(0 as real) + 1 as real))
                by (nonlinear_arith)
                requires
                    g > 0 as real,
            ;
            assert(0 as real <= c * c) by (nonlinear_arith);
        },
    }
}

/// Temperatures that are counted in `i64` stay far from the limits of doubles.
proof fn lemma_degrees_below_limit(d: real)
    requires
        exact::size(d) <= 0x1_0000_0000_0000_0000 as real,
    ensures
        2 as real * exact::size(d) + 1 as real <= exact::limit(),
        exact::size(d) <= exact::ceiling(),
{
    lemma2_to64();
    lemma_pow2_strictly_increases(64, 400);
    lemma_pow2_strictly_increases(66, 1000);
    lemma_pow2_unfold(66);
    lemma_pow2_unfold(65);
}

/// The gap to the calibrated mean, in doubles: near the exact one.
proof fn lemma_gap(m: RawMeasurement, p: HardwareProfile)
    requires
        m.comparable(p.reference_temp_mc),
        sensible(m, p),
    ensures
        ({
            let mean = p.spread(m.operation, m.precision).0;
            let gap = fold::normalized_deviation_of(m, p).minus(mean);
            &&& fold::normalized_deviation_of(m, p).finite()
            &&& gap.finite()
            &&& exact::size(exact::value(gap) - exact_gap(m, p)) <= 100 as real * exact::grain()
                * extent(m, p)
            &&& exact::size(
                exact::value(fold::normalized_deviation_of(m, p)) - (exact_deviation(m, p)
                    + exact_heat(m, p)),
            ) <= 100 as real * exact::grain() * extent(m, p)
        }),
        extent(m, p) >= 1 as real,
{
    let g = exact::grain();
    let s = exact::speck();
    let f = exact::floor();
    let c = exact::ceiling();
    let deviation = fold::deviation_of(m, p);
    let heat = fold::thermal_adjustment(m, p);
    let mean = p.spread(m.operation, m.precision).0;
    let r = meaning::pace(m) * baseline_for(m, p);
    let a = exact_heat(m, p);
    let sa = exact::size(a);
    let mu = exact::value(mean);
    let sm = exact::size(mu);
    exact::lemma_constants();
    lemma_deviation_is_relative(m, p);
    lemma_heat_is_per_degree(m, p);
    meaning::lemma_four_times_below_limit();
    lemma_throughput(m);
    assert(r <= c * c) by (nonlinear_arith)
        requires
            r == meaning::pace(m) * baseline_for(m, p),
            0 as real <= meaning::pace(m),
            2 as real * meaning::pace(m) <= c,
            4 as real * baseline_for(m, p) <= c,
            baseline_for(m, p) > 0 as real,
    {
        assert(meaning::pace(m) * baseline_for(m, p) <= c * baseline_for(m, p));
        assert(c * baseline_for(m, p) <= c * c);
    }
    assert(s <= g) by (nonlinear_arith)
        requires
            s * 0x10_0000_0000_0000 as real <= f * f,
            f <= g,
            f > 0 as real,
            s > 0 as real,
            g * 0x10_0000_0000_0000 as real == 1 as real,
    ;
    let (vd, vh) = (exact::value(deviation), exact::value(heat));
    let gr = g * (r + 1 as real);
    let ga = g * (sa + 1 as real);
    assert(40 as real * g * (r + 1 as real) == 40 as real * gr && 10 as real * g * (sa + 1 as real)
        == 10 as real * ga) by (nonlinear_arith)
        requires
            gr == g * (r + 1 as real),
            ga == g * (sa + 1 as real),
    ;
    assert(1000 as real * gr <= r + 1 as real && 1000 as real * ga <= sa + 1 as real && gr
        >= 0 as real && ga >= 0 as real) by (nonlinear_arith)
        requires
            gr == g * (r + 1 as real),
            ga == g * (sa + 1 as real),
            g * 0x10_0000_0000_0000 as real == 1 as real,
            g > 0 as real,
            r >= 0 as real,
            sa >= 0 as real,
    ;
    assert(exact::size(vd) <= 2 as real * (r + 1 as real));
    assert(exact::size(vh) <= 2 as real * (sa + 1 as real));
    exact::lemma_plus_exact(deviation, heat);
    let nd = fold::normalized_deviation_of(m, p);
    let vn = exact::value(nd);
    assert(exact::size(vd + vh) * g <= 2 as real * gr + 2 as real * ga) by (nonlinear_arith)
        requires
            exact::size(vd) <= 2 as real * (r + 1 as real),
            exact::size(vh) <= 2 as real * (sa + 1 as real),
            gr == g * (r + 1 as real),
            ga == g * (sa + 1 as real),
            g > 0 as real,
    {
        assert(exact::size(vd + vh) <= 2 as real * (r + 1 as real) + 2 as real * (sa + 1 as real));
    }
    let exact_nd = (r - 1 as real) + a;
    assert(exact::size(vn - exact_nd) <= 42 as real * gr + 12 as real * ga + s);
    let gx = g * extent(m, p);
    assert(gx == gr + ga + g * sm - g && 0 as real <= g * sm) by (nonlinear_arith)
        requires
            gx == g * (r + sa + sm + 1 as real),
            gr == g * (r + 1 as real),
            ga == g * (sa + 1 as real),
            g > 0 as real,
            sm >= 0 as real,
    ;
    assert(gr >= g && ga >= g) by (nonlinear_arith)
        requires
            gr == g * (r + 1 as real),
            ga == g * (sa + 1 as real),
            g > 0 as real,
            r >= 0 as real,
            sa >= 0 as real,
    ;
    assert(exact::size(vn) <= 3 as real * (r + 1 as real) + 3 as real * (sa + 1 as real));
    lemma_eight_times_below_limit();
    exact::lemma_minus_exact(nd, mean);
    let gap = exact::value(nd.minus(mean));
    assert(exact::size(vn - mu) * g <= 3 as real * gr + 3 as real * ga + g * sm) by (nonlinear_arith)
        requires
            exact::size(vn) <= 3 as real * (r + 1 as real) + 3 as real * (sa + 1 as real),
            sm == exact::size(mu),
            gr == g * (r + 1 as real),
            ga == g * (sa + 1 as real),
            g > 0 as real,
    {
        assert(exact::size(vn - mu) <= 3 as real * (r + 1 as real) + 3 as real * (sa + 1 as real)
            + sm);
    }
    assert(100 as real * g * extent(m, p) == 100 as real * gx) by (nonlinear_arith)
        requires
            gx == g * extent(m, p),
    ;
}

proof fn lemma_eight_times_below_limit()
    ensures
        8 as real * (exact::ceiling() * exact::ceiling()) + 8 as real <= exact::limit(),
{
    lemma_pow2_adds(400, 400);
    lemma_pow2_adds(4, 800);
    lemma2_to64();
    lemma_pow2_strictly_increases(804, 1000);
    lemma_pow2_strictly_increases(3, 800);
    let c = exact::ceiling();
    assert((pow2(400) * pow2(400)) as real == c * c) by (nonlinear_arith)
        requires
            c == pow2(400) as real,
    ;
}

/// A quotient compared with a number of the ladder, exactly: it is at least as large if
/// the dividend is at least so many divisors, and at most as large if it is at most so
/// many.
proof fn lemma_quotient_bound(x: Datum, y: Datum, t: nat)
    requires
        x.finite(),
        y.finite(),
        exact::value(y) != 0 as real,
        t < TOP,
    ensures
        ({
            let z = x.over(y).absolute();
            let bound = Datum::Signed { negative: false, rung: t };
            let so_many = exact::value(bound) * exact::size(exact::value(y));
            &&& z.number()
            &&& exact::size(exact::value(x)) >= so_many ==> !z.less(bound)
            &&& exact::size(exact::value(x)) <= so_many ==> !bound.less(z)
        }),
{
    let one = ladder::one();
    let o = one as real;
    lemma_pow2_pos(1074);
    exact::lemma_units(x);
    exact::lemma_units(y);
    exact::lemma_units(x.absolute());
    exact::lemma_units(y.absolute());
    let bound = Datum::Signed { negative: false, rung: t };
    exact::lemma_units(bound);
    ladder::lemma_positive(0);
    if let (Datum::Signed { rung: a, .. }, Datum::Signed { rung: b, .. }) = (x, y) {
        ladder::lemma_positive(b);
        let (ma, mb, mt) = (ladder::mag(a), ladder::mag(b), ladder::mag(t));
        let (va, vb, vt) = (
            exact::size(exact::value(x)),
            exact::size(exact::value(y)),
            exact::value(bound),
        );
        assert(ma as real == va * o && mb as real == vb * o && mt as real == vt * o);
        let n = ma * one;
        let z = ladder::round(n, mb);
        ladder::lemma_rounds_to_nearest(n, mb);
        assert(n as real == (va * o) * o && (mt * mb) as real == (vt * vb) * o * o)
            by (nonlinear_arith)
            requires
                n == ma * one,
                one as real == o,
                ma as real == va * o,
                mb as real == vb * o,
                mt as real == vt * o,
        {
            assert((ma * one) as real == (ma as real) * (one as real));
            assert((mt * mb) as real == (mt as real) * (mb as real));
            assert((vt * o) * (vb * o) == (vt * vb) * o * o);
        }
        assert((va >= vt * vb ==> (va * o) * o >= (vt * vb) * o * o) && (va <= vt * vb ==> (va * o)
            * o <= (vt * vb) * o * o)) by (nonlinear_arith)
            requires
                o > 0 as real,
        {
            if va >= vt * vb {
                assert(va * o >= (vt * vb) * o);
                assert((va * o) * o >= ((vt * vb) * o) * o);
            }
            if va <= vt * vb {
                assert(va * o <= (vt * vb) * o);
                assert((va * o) * o <= ((vt * vb) * o) * o);
            }
        }
        if va >= vt * vb {
            ladder::lemma_round_at_least(t, n, mb);
            order::lemma_mag_monotone(t, z);
        }
        if va <= vt * vb {
            ladder::lemma_round_at_most(t, n, mb);
            order::lemma_mag_monotone(z, t);
        }
        if a == 0 {
            ladder::lemma_positive(a);
        }
    }
}

/// The width in doubles that standard scores are taken by.
proof fn lemma_width(m: RawMeasurement, p: HardwareProfile) -> (width: Datum)
    requires
        p.spread(m.operation, m.precision).1.finite(),
    ensures
        width.finite(),
        exact::value(width) != 0 as real,
        fold::z_score_of(m, p) == fold::normalized_deviation_of(m, p).minus(
            p.spread(m.operation, m.precision).0,
        ).over(width),
        exact::size(exact::value(width)) <= width_for(m, p) * (1 as real + meaning::hair()),
        width_for(m, p) <= exact::size(exact::value(width)) * (1 as real + meaning::hair()),
        width_for(m, p) > 0 as real,
{
    let filed = p.spread(m.operation, m.precision).1;
    let h = meaning::hair();
    let g = exact::grain();
    meaning::lemma_hair();
    exact::lemma_constants();
    exact::lemma_units(filed);
    exact::lemma_units(Datum::zero(false));
    ladder::lemma_positive(0);
    let s = exact::size(exact::value(filed));
    if exact::value(filed) == 0 as real {
        let width = Datum::ratio(1, 100);
        let e = 1 as real / 100 as real;
        exact::lemma_ratio_exact(1, 100);
        assert(exact::floor() * exact::floor() <= e) by (nonlinear_arith)
            requires
                exact::floor() <= g,
                exact::floor() > 0 as real,
                g * 0x10_0000_0000_0000 as real == 1 as real,
                e * 100 as real == 1 as real,
        ;
        exact::lemma_near_rounds(exact::value(width), e);
        exact::lemma_near_size(exact::value(width), e, 2);
        let v = exact::value(width);
        assert(v <= e * (1 as real + h) && e <= v * (1 as real + h)) by (nonlinear_arith)
            requires
                exact::size(v - e) <= 2 as real * g * e,
                2 as real * v >= e,
                e * 100 as real == 1 as real,
                h == 0x1000 as real * g,
                g > 0 as real,
                v > 0 as real,
        {
            assert(2 as real * g * e <= h * e);
            assert(2 as real * g * e <= h * v);
        }
        width
    } else {
        assert(s <= s * (1 as real + h)) by (nonlinear_arith)
            requires
                s > 0 as real,
                h > 0 as real,
        ;
        filed
    }
}

/// The rung of so many 2^-40s.
proof fn lemma_bound(i: nat) -> (t: nat)
    requires
        i <= 0x20_0000_0000_0000,
    ensures
        t < TOP,
        exact::value(Datum::Signed { negative: false, rung: t }) == i as real * meaning::hair(),
{
    let t = ladder::lemma_on_ladder(i, 1034);
    let x = Datum::Signed { negative: false, rung: t };
    lemma2_to64();
    lemma_pow2_adds(8, 32);
    lemma_pow2_adds(40, 1034);
    lemma_pow2_pos(1034);
    exact::lemma_units(x);
    meaning::lemma_hair();
    let o = ladder::one() as real;
    let u = pow2(1034) as real;
    let v = exact::value(x);
    let h = meaning::hair();
    assert((pow2(40) * pow2(1034)) as real == 0x100_0000_0000 as real * u) by (nonlinear_arith)
        requires
            u == pow2(1034) as real,
            pow2(40) == 0x100_0000_0000,
    ;
    assert((i * pow2(1034)) as real == (i as real) * u) by (nonlinear_arith)
        requires
            u == pow2(1034) as real,
    ;
    assert(v == (i as real) * h) by (nonlinear_arith)
        requires
            v * o == (i as real) * u,
            o == 0x100_0000_0000 as real * u,
            h * 0x100_0000_0000 as real == 1 as real,
            u > 0 as real,
    {
        assert((v * 0x100_0000_0000 as real) * u == (i as real) * u);
        assert(v * 0x100_0000_0000 as real == i as real);
        assert((v * 0x100_0000_0000 as real) * h == (i as real) * h);
    }
    t
}

/// The standard score against a bound, over the gap and the width as they are filed.
proof fn lemma_score_bound(m: RawMeasurement, p: HardwareProfile, i: nat) -> (t: nat)
    requires
        m.comparable(p.reference_temp_mc),
        sensible(m, p),
        i <= 0x20_0000_0000_0000,
    ensures
        t < TOP,
        exact::value(Datum::Signed { negative: false, rung: t }) == i as real * meaning::hair(),
        fold::z_score_of(m, p).absolute().number(),
        ({
            let bound = Datum::Signed { negative: false, rung: t };
            let b = i as real * meaning::hair();
            let z = fold::z_score_of(m, p).absolute();
            let room = meaning::hair() * extent(m, p);
            let wide = 1 as real + meaning::hair();
            &&& exact::size(exact_gap(m, p)) >= b * (width_for(m, p) * wide) + room ==> !z.less(
                bound,
            )
            &&& (exact::size(exact_gap(m, p)) + room) * wide <= b * width_for(m, p)
                ==> !bound.less(z)
        }),
{
    let h = meaning::hair();
    let g = exact::grain();
    let mean = p.spread(m.operation, m.precision).0;
    let gap = fold::normalized_deviation_of(m, p).minus(mean);
    meaning::lemma_hair();
    exact::lemma_constants();
    lemma_gap(m, p);
    let width = lemma_width(m, p);
    let t = lemma_bound(i);
    lemma_quotient_bound(gap, width, t);
    let b = i as real * h;
    let x = extent(m, p);
    let room = h * x;
    let e = exact::size(exact_gap(m, p));
    let v = exact::size(exact::value(gap));
    let s = exact::size(exact::value(width));
    let w = width_for(m, p);
    let wide = 1 as real + h;
    assert(exact::size(v - e) <= room) by {
        assert(100 as real * g * x <= room) by (nonlinear_arith)
            requires
                room == h * x,
                h == 0x1000 as real * g,
                g > 0 as real,
                x >= 1 as real,
        ;
    }
    assert(b >= 0 as real) by (nonlinear_arith)
        requires
            b == i as real * h,
            i as real >= 0 as real,
            h > 0 as real,
    ;
    if e >= b * (w * wide) + room {
        assert(v >= b * s) by (nonlinear_arith)
            requires
                v >= e - room,
                e >= b * (w * wide) + room,
                s <= w * wide,
                b >= 0 as real,
        ;
    }
    if (e + room) * wide <= b * w {
        assert(v <= b * s) by (nonlinear_arith)
            requires
                v <= e + room,
                (e + room) * wide <= b * w,
                w <= s * wide,
                wide > 0 as real,
                b >= 0 as real,
        {
            assert(b * w <= b * (s * wide));
            assert((e + room) * wide <= (b * s) * wide);
            assert(e + room <= b * s);
        }
    }
    t
}

/// A measurement is anomalous, with the full score, if it lies more than six calibrated
/// widths from the calibrated mean: over counts, temperatures and the profile as filed,
/// up to rounding, whatever the exponential is.
pub proof fn lemma_beyond_six_widths_is_anomalous<E: Fn(Double) -> Double>(
    m: RawMeasurement,
    p: HardwareProfile,
    exp: E,
    d: Decision,
)
    requires
        fold::folds(m, p, exp, d),
        m.comparable(p.reference_temp_mc),
        sensible(m, p),
        exact::size(exact_gap(m, p)) >= 6 as real * width_for(m, p) * (1 as real + 3 as real
            * meaning::hair()) + meaning::hair() * extent(m, p),
    ensures
        d is Anomalous,
        exact::value(d.strength()) == 1 as real,
{
    let h = meaning::hair();
    meaning::lemma_hair();
    // Six and a little.
    let i: nat = 0x600_0000_0001;
    let t = lemma_score_bound(m, p, i);
    lemma_width(m, p);
    let w = width_for(m, p);
    let b = i as real * h;
    let wide = 1 as real + h;
    assert(b == 6 as real + h) by (nonlinear_arith)
        requires
            b == 0x600_0000_0001 as real * h,
            h * 0x100_0000_0000 as real == 1 as real,
    ;
    assert(6 as real * w * (1 as real + 3 as real * h) >= b * (w * wide)) by (nonlinear_arith)
        requires
            b == 6 as real + h,
            wide == 1 as real + h,
            w > 0 as real,
            h > 0 as real,
            h * 0x100_0000_0000 as real == 1 as real,
    {
        assert(b * wide == 6 as real + 7 as real * h + h * h);
        assert(h * h <= h);
        assert(6 as real * (1 as real + 3 as real * h) >= b * wide);
        assert((6 as real * (1 as real + 3 as real * h)) * w >= (b * wide) * w);
    }
    let z = fold::z_score_of(m, p).absolute();
    let bound = Datum::Signed { negative: false, rung: t };
    exact::lemma_whole_exact(6);
    exact::lemma_value_order(Datum::whole(6), bound);
    laws::lemma_fold_beyond_six(m, p, exp, d);
    exact::lemma_whole_exact(1);
}

/// A measurement is anomalous if it lies more than four and a quarter calibrated widths
/// from the calibrated mean, up to rounding, if the exponential gives numbers.
pub proof fn lemma_beyond_the_quarter_is_anomalous<E: Fn(Double) -> Double>(
    m: RawMeasurement,
    p: HardwareProfile,
    exp: E,
    d: Decision,
)
    requires
        fold::folds(m, p, exp, d),
        m.comparable(p.reference_temp_mc),
        sensible(m, p),
        forall|x: Double, y: Double| #[trigger] exp.ensures((x,), y) ==> y@ is Signed,
        4 as real * exact::size(exact_gap(m, p)) >= 17 as real * width_for(m, p) * (1 as real
            + meaning::hair()) + 4 as real * (meaning::hair() * extent(m, p)),
    ensures
        d is Anomalous,
{
    let h = meaning::hair();
    meaning::lemma_hair();
    let i: nat = 0x440_0000_0000;
    let t = lemma_score_bound(m, p, i);
    let b = i as real * h;
    let w = width_for(m, p);
    let wide = 1 as real + h;
    assert(4 as real * b == 17 as real) by (nonlinear_arith)
        requires
            b == 0x440_0000_0000 as real * h,
            h * 0x100_0000_0000 as real == 1 as real,
    ;
    assert(17 as real * w * wide == 4 as real * (b * (w * wide))) by (nonlinear_arith)
        requires
            4 as real * b == 17 as real,
    ;
    let bound = Datum::Signed { negative: false, rung: t };
    let quarter = ladder::lemma_on_ladder(17, 1072);
    lemma2_to64();
    lemma_pow2_adds(2, 1072);
    ladder::lemma_round_exact(quarter, 4);
    assert(Datum::ratio(17, 4) == (Datum::Signed { negative: false, rung: quarter }));
    assert(exact::value(Datum::ratio(17, 4)) * 4 as real == 17 as real) by {
        let x = Datum::ratio(17, 4);
        exact::lemma_units(x);
        lemma_pow2_pos(1074);
        let o = ladder::one() as real;
        let v = exact::value(x);
        assert(v * 4 as real == 17 as real) by (nonlinear_arith)
            requires
                v * o * 4 as real == 17 as real * o,
                o > 0 as real,
        ;
    }
    exact::lemma_value_order(Datum::ratio(17, 4), bound);
    exact::lemma_value_order(fold::z_score_of(m, p).absolute(), bound);
    exact::lemma_value_order(fold::z_score_of(m, p).absolute(), Datum::ratio(17, 4));
    laws::lemma_fold_in_tail(m, p, exp, d);
}

/// A measurement is normal if it lies less than four calibrated widths from the
/// calibrated mean: over counts, temperatures and the profile as filed, up to rounding,
/// whatever the exponential is.
pub proof fn lemma_within_four_widths_is_normal<E: Fn(Double) -> Double>(
    m: RawMeasurement,
    p: HardwareProfile,
    exp: E,
    d: Decision,
)
    requires
        fold::folds(m, p, exp, d),
        m.comparable(p.reference_temp_mc),
        sensible(m, p),
        (exact::size(exact_gap(m, p)) + meaning::hair() * extent(m, p)) * (1 as real
            + meaning::hair()) <= 4 as real * width_for(m, p),
    ensures
        d is Normal,
        exact::value(d.strength()) == 0 as real,
{
    let h = meaning::hair();
    meaning::lemma_hair();
    let i: nat = 0x400_0000_0000;
    let t = lemma_score_bound(m, p, i);
    let b = i as real * h;
    assert(b == 4 as real) by (nonlinear_arith)
        requires
            b == 0x400_0000_0000 as real * h,
            h * 0x100_0000_0000 as real == 1 as real,
    ;
    let bound = Datum::Signed { negative: false, rung: t };
    exact::lemma_whole_exact(4);
    exact::lemma_value_order(Datum::whole(4), bound);
    exact::lemma_value_order(bound, Datum::whole(4));
    exact::lemma_value_order(bound, fold::z_score_of(m, p).absolute());
    exact::lemma_value_order(Datum::whole(4), fold::z_score_of(m, p).absolute());
    laws::lemma_fold_within_four(m, p, exp, d);
    exact::lemma_units(Datum::zero(false));
    ladder::lemma_positive(0);
}

/// The standard score times the standard deviation is the distance from the mean, sign
/// included, up to rounding: whatever the standard deviation is, as long as it is a
/// finite number other than zero.
pub proof fn lemma_standard_score_counts_deviations(deviation: Datum, spread: (Datum, Datum))
    requires
        deviation.finite(),
        spread.0.finite(),
        spread.1.finite(),
        exact::size(exact::value(deviation)) <= exact::ceiling(),
        exact::size(exact::value(spread.0)) <= exact::ceiling(),
        exact::floor() <= exact::size(exact::value(spread.1)) <= exact::ceiling(),
    ensures
        ({
            let z = fold::standard_score(deviation, spread);
            let away = exact::value(deviation) - exact::value(spread.0);
            &&& z.finite()
            &&& exact::size(exact::value(z) * exact::value(spread.1) - away) <= meaning::hair()
                * exact::size(away) + exact::floor()
        }),
{
    let g = exact::grain();
    let s = exact::speck();
    let f = exact::floor();
    let c = exact::ceiling();
    let h = meaning::hair();
    let (mean, width) = spread;
    let w = exact::value(width);
    exact::lemma_constants();
    meaning::lemma_hair();
    lemma_eight_times_below_limit();
    exact::lemma_units(width);
    exact::lemma_units(Datum::zero(false));
    ladder::lemma_positive(0);
    assert(c <= c * c) by (nonlinear_arith)
        requires
            c >= 1 as real,
    ;
    exact::lemma_minus_exact(deviation, mean);
    let away = exact::value(deviation) - exact::value(mean);
    let sa = exact::size(away);
    let gap = exact::value(deviation.minus(mean));
    assert(s <= f && s <= 1 as real) by (nonlinear_arith)
        requires
            s * 0x10_0000_0000_0000 as real <= f * f,
            f <= g,
            f > 0 as real,
            s > 0 as real,
            g * 0x10_0000_0000_0000 as real == 1 as real,
    ;
    let ga = g * sa;
    assert(sa * g == ga && ga >= 0 as real && 100 as real * ga <= sa) by (nonlinear_arith)
        requires
            ga == g * sa,
            sa >= 0 as real,
            g > 0 as real,
            g * 0x10_0000_0000_0000 as real == 1 as real,
    ;
    assert(exact::size(gap) <= sa + ga + s);
    assert(exact::size(gap) <= 4 as real * c + 1 as real);
    let q = gap / w;
    let sq = exact::size(q);
    assert(sq * exact::size(w) == exact::size(gap) && q * w == gap) by (nonlinear_arith)
        requires
            q == gap / w,
            sq == exact::size(q),
            exact::size(w) > 0 as real,
    {
        assert(q * w == gap);
        assert(exact::size(q * w) == exact::size(q) * exact::size(w));
    }
    assert(sq <= 4 as real * (c * c) + c) by (nonlinear_arith)
        requires
            sq * exact::size(w) <= 4 as real * c + 1 as real,
            exact::size(w) >= f,
            f * c == 1 as real,
            f > 0 as real,
            c > 0 as real,
            sq >= 0 as real,
    {
        assert(sq * f <= sq * exact::size(w));
        assert((sq * f) * c <= (4 as real * c + 1 as real) * c);
        assert((sq * f) * c == sq * (f * c));
    }
    exact::lemma_over_exact(deviation.minus(mean), width);
    let z = exact::value(fold::standard_score(deviation, spread));
    // The error of the division, counted in standard deviations.
    assert(exact::size(z * w - gap) <= exact::size(gap) * g + s * c) by (nonlinear_arith)
        requires
            q * w == gap,
            exact::size(z - q) <= sq * g + s,
            sq * exact::size(w) == exact::size(gap),
            exact::size(w) <= c,
            s > 0 as real,
            exact::size(w) >= 0 as real,
    {
        assert(z * w - gap == (z - q) * w);
        assert(exact::size((z - q) * w) == exact::size(z - q) * exact::size(w));
        assert(exact::size(z - q) * exact::size(w) <= (sq * g + s) * exact::size(w));
        assert((sq * g + s) * exact::size(w) == g * (sq * exact::size(w)) + s * exact::size(w));
        assert(s * exact::size(w) <= s * c);
    }
    assert(s * c <= f / 4 as real) by (nonlinear_arith)
        requires
            s * 0x10_0000_0000_0000 as real <= f * f,
            f * c == 1 as real,
            f > 0 as real,
            c > 0 as real,
            s > 0 as real,
    {
        assert((s * 0x10_0000_0000_0000 as real) * c <= (f * f) * c);
        assert((f * f) * c == f * (f * c));
    }
    assert(s <= f / 4 as real) by (nonlinear_arith)
        requires
            s * 0x10_0000_0000_0000 as real <= f * f,
            f <= g,
            f > 0 as real,
            s > 0 as real,
            g * 0x10_0000_0000_0000 as real == 1 as real,
    ;
    assert(exact::size(gap) * g <= 2 as real * ga + s) by (nonlinear_arith)
        requires
            exact::size(gap) <= sa + ga + s,
            ga == g * sa,
            g > 0 as real,
            s > 0 as real,
            g * 0x10_0000_0000_0000 as real == 1 as real,
            ga >= 0 as real,
    {
        assert(g <= 1 as real);
        assert(ga * g <= ga);
        assert(s * g <= s);
        assert(exact::size(gap) * g <= (sa + ga + s) * g);
    }
    assert(3 as real * ga <= h * sa) by (nonlinear_arith)
        requires
            ga == g * sa,
            h == 0x1000 as real * g,
            g > 0 as real,
            sa >= 0 as real,
    ;
}

} // verus!
