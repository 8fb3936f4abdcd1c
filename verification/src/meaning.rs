//! What the operations mean, in exact numbers.
//!
//! Each law here speaks of what goes in, counts and calibrated numbers, and of what
//! comes out, with plain arithmetic between them and room for rounding.
use crate::detector;
use crate::double::{Datum, Double};
use crate::exact;
use crate::fold;
use crate::ladder;
use crate::laws;
use crate::types;
use crate::types::{
    Decision, HardwareProfile, Operation, Precision, PredictedMeasurement, RawMeasurement, Report,
};
use vstd::arithmetic::power2::*;
use vstd::prelude::*;

verus! {

/// A trillionth part, near enough: 2^-40. The room that laws leave for rounding.
pub open spec fn hair() -> real {
    1 as real / 0x100_0000_0000 as real
}

/// Cycles per operation, as an exact number.
pub open spec fn cost(m: RawMeasurement) -> real {
    m.cycles as real / m.op_count as real
}

/// Operations per cycle, as an exact number; none where there are no cycles. A
/// measurement without operations counts as one.
pub open spec fn pace(m: RawMeasurement) -> real {
    if m.cycles == 0 {
        0 as real
    } else if m.op_count == 0 {
        1 as real / m.cycles as real
    } else {
        m.op_count as real / m.cycles as real
    }
}

pub proof fn lemma_hair()
    ensures
        hair() > 0 as real,
        hair() == 0x1000 as real * exact::grain(),
        hair() * 0x100_0000_0000 as real == 1 as real,
{
    exact::lemma_constants();
    let h = hair();
    let g = exact::grain();
    assert(h * 0x100_0000_0000 as real == 1 as real && h > 0 as real) by (nonlinear_arith)
        requires
            h == 1 as real / 0x100_0000_0000 as real,
    ;
    assert(h == 0x1000 as real * g) by (nonlinear_arith)
        requires
            h * 0x100_0000_0000 as real == 1 as real,
            g * 0x10_0000_0000_0000 as real == 1 as real,
    ;
}

/// A quotient of counts, in doubles: near the exact one.
pub proof fn lemma_quotient_of_counts(c: nat, o: nat)
    requires
        c <= 0x1_0000_0000_0000_0000,
        0 < o <= 0x1_0000_0000_0000_0000,
    ensures
        ({
            let q = Datum::whole(c as int).over(Datum::whole(o as int));
            let e = c as real / o as real;
            &&& q.finite()
            &&& exact::near(exact::value(q), e, 9)
            &&& exact::value(q) >= 0 as real
            &&& c == 0 ==> exact::value(q) == 0 as real
            &&& c > 0 ==> exact::value(q) > 0 as real
            &&& 0 as real <= e <= 0x1_0000_0000_0000_0000 as real
            &&& c > 0 ==> e * 0x1_0000_0000_0000_0000 as real >= 1 as real
            &&& 2 as real * e <= exact::ceiling()
        }),
{
    let (x, y) = (Datum::whole(c as int), Datum::whole(o as int));
    let (a, b) = (c as real, o as real);
    let w = 0x1_0000_0000_0000_0000 as real;
    let (va, vb) = (exact::value(x), exact::value(y));
    let e = a / b;
    exact::lemma_constants();
    exact::lemma_whole_exact(c as int);
    exact::lemma_whole_exact(o as int);
    assert(exact::floor() * exact::floor() <= 1 as real) by (nonlinear_arith)
        requires
            exact::floor() <= exact::grain(),
            exact::floor() > 0 as real,
            exact::grain() * 0x10_0000_0000_0000 as real == 1 as real,
    ;
    exact::lemma_near_rounds(vb, b);
    exact::lemma_near_size(vb, b, 2);
    assert(e * b == a && e >= 0 as real && e <= w) by (nonlinear_arith)
        requires
            e == a / b,
            b >= 1 as real,
            0 as real <= a <= w,
    ;
    if c == 0 {
        let q = x.over(y);
        assert(va == 0 as real);
        assert(va / vb == 0 as real) by (nonlinear_arith)
            requires
                va == 0 as real,
                vb > 0 as real,
        ;
        exact::lemma_units(x);
        exact::lemma_units(y);
        exact::lemma_over_exact(x, y);
        exact::lemma_units(q);
        ladder::lemma_positive(0);
        if let (Datum::Signed { rung: i, .. }, Datum::Signed { rung: j, .. }) = (x, y) {
            ladder::lemma_positive(i);
            ladder::lemma_positive(j);
            assert(0 * ladder::one() == 0 && 0 * ladder::mag(j) == 0);
            ladder::lemma_round_exact(0, ladder::mag(j));
        }
        assert(e == 0 as real) by (nonlinear_arith)
            requires
                e * b == a,
                a == 0 as real,
                b >= 1 as real,
        ;
        assert(9 as real * exact::grain() * 0 as real == 0 as real) by (nonlinear_arith);
    } else {
        exact::lemma_near_rounds(va, a);
        exact::lemma_near_size(va, a, 2);
        exact::lemma_near_quotient(va, a, 2, vb, b, 2);
        exact::lemma_near_size(va / vb, e, 6);
        assert(e * w >= 1 as real) by (nonlinear_arith)
            requires
                e * b == a,
                a >= 1 as real,
                (0 as real) < b,
                b <= w,
                e >= 0 as real,
        ;
        lemma_counts_are_moderate(e);
        exact::lemma_over_exact(x, y);
        exact::lemma_near_rounds(exact::value(x.over(y)), va / vb);
        exact::lemma_near_chain(exact::value(x.over(y)), va / vb, 2, e, 6);
        exact::lemma_near_size(exact::value(x.over(y)), e, 9);
    }
}

/// A number from 2^-64 to 2^64, and what is within a factor of two of it.
pub proof fn lemma_counts_are_moderate(e: real)
    requires
        e * 0x1_0000_0000_0000_0000 as real >= 1 as real,
        0 as real <= e <= 0x1_0000_0000_0000_0000 as real,
    ensures
        2 as real * e <= exact::ceiling(),
        e >= 2 as real * exact::floor(),
        e >= 2 as real * (exact::floor() * exact::floor()),
        2 as real * e <= exact::limit(),
{
    exact::lemma_constants();
    lemma2_to64();
    lemma_pow2_strictly_increases(65, 400);
    lemma_pow2_unfold(65);
    let f = exact::floor();
    let c = exact::ceiling();
    let w = 0x1_0000_0000_0000_0000 as real;
    assert(c >= 2 as real * w);
    assert(2 as real * (f * w) <= 1 as real) by (nonlinear_arith)
        requires
            f * c == 1 as real,
            c >= 2 as real * w,
            f > 0 as real,
            w > 0 as real,
    ;
    assert(e >= 2 as real * f) by (nonlinear_arith)
        requires
            e * w >= 1 as real,
            2 as real * (f * w) <= 1 as real,
            w > 0 as real,
    ;
    assert(f * f <= f) by (nonlinear_arith)
        requires
            f > 0 as real,
            f <= exact::grain(),
            exact::grain() * 0x10_0000_0000_0000 as real == 1 as real,
    ;
}

/// Cycles per operation are the cycles over the operations, up to rounding; without
/// operations, the cycles.
pub proof fn lemma_cycles_per_op_is_the_cost(m: RawMeasurement)
    ensures
        m.op_count > 0 ==> exact::near(exact::value(fold::cycles_per_op(m)), cost(m), 9),
        m.op_count == 0 ==> exact::near(
            exact::value(fold::cycles_per_op(m)),
            m.cycles as real,
            9,
        ),
        fold::cycles_per_op(m).finite(),
{
    lemma_quotient_of_counts(
        m.cycles as nat,
        if m.op_count == 0 {
            1
        } else {
            m.op_count as nat
        },
    );
    assert(m.cycles as real / 1 as real == m.cycles as real);
}

/// A relative difference of two numbers, in doubles: near the exact one.
///
/// `x` is a number near `e`, and `b` a positive one.
pub proof fn lemma_relative_difference(x: Datum, e: real, k: int, b: Datum)
    requires
        x.finite(),
        b.finite(),
        0 <= k <= 20,
        exact::near(exact::value(x), e, k),
        e >= 0 as real,
        2 as real * e <= exact::ceiling(),
        exact::floor() <= exact::value(b) <= exact::ceiling(),
    ensures
        ({
            let r = exact::value(x.minus(b).over(b));
            let v = exact::value(b);
            &&& x.minus(b).finite()
            &&& x.minus(b).over(b).finite()
            &&& exact::size(r - (e / v - 1 as real)) <= 30 as real * exact::grain() * (e / v
                + 1 as real)
        }),
{
    exact::lemma_constants();
    let g = exact::grain();
    let s = exact::speck();
    let f = exact::floor();
    let c = exact::ceiling();
    let v = exact::value(b);
    let y = exact::value(x);
    exact::lemma_near_size(y, e, k);
    assert(exact::size(e) == e);
    assert(exact::size(y) <= c);
    assert(c <= exact::limit());
    exact::lemma_minus_exact(x, b);
    let d = exact::value(x.minus(b));
    let q = d / v;
    let t = e / v;
    // In parts of the divisor.
    assert(t >= 0 as real && t * v == e) by (nonlinear_arith)
        requires
            t == e / v,
            e >= 0 as real,
            v > 0 as real,
    ;
    assert(q * v == d) by (nonlinear_arith)
        requires
            q == d / v,
            v > 0 as real,
    ;
    assert(exact::size(y - e) <= 20 as real * g * e) by {
        exact::lemma_near_weaker(y, e, k, 20);
    }
    assert(2 as real * y <= 3 as real * e && y >= 0 as real) by {
        if e == 0 as real {
            assert(exact::size(y) <= 0 as real);
        }
    }
    let diff = d - (e - v);
    assert(exact::size(diff) <= 20 as real * g * e + g * (2 as real * e + v) + s)
        by (nonlinear_arith)
        requires
            diff == d - (e - v),
            exact::size(y - e) <= 20 as real * g * e,
            exact::size(d - (y - v)) <= exact::size(y - v) * g + s,
            2 as real * y <= 3 as real * e,
            y >= 0 as real,
            v > 0 as real,
            g > 0 as real,
            e >= 0 as real,
            s > 0 as real,
    {
        assert(exact::size(y - v) <= 2 as real * e + v);
        assert(exact::size(y - v) * g <= (2 as real * e + v) * g);
        assert(exact::size(diff) <= exact::size(d - (y - v)) + exact::size(y - e));
    }
    // The smallest double is nothing beside the divisor.
    assert(s <= g * v) by (nonlinear_arith)
        requires
            s * 0x10_0000_0000_0000 as real <= f * f,
            g * 0x10_0000_0000_0000 as real == 1 as real,
            f <= v,
            f <= g,
            f > 0 as real,
            g > 0 as real,
            s > 0 as real,
    {
        assert(f * f <= g * v);
        assert(s <= s * 0x10_0000_0000_0000 as real);
    }
    let err = q - (t - 1 as real);
    assert(err * v == diff) by (nonlinear_arith)
        requires
            err == q - (t - 1 as real),
            q * v == d,
            t * v == e,
            diff == d - (e - v),
    ;
    assert(exact::size(err) <= 22 as real * g * t + 2 as real * g) by (nonlinear_arith)
        requires
            err * v == diff,
            exact::size(diff) <= 20 as real * g * e + g * (2 as real * e + v) + s,
            s <= g * v,
            t * v == e,
            v > 0 as real,
            g > 0 as real,
    {
        let bound = 22 as real * g * t + 2 as real * g;
        assert(bound * v == 22 as real * g * e + 2 as real * g * v);
        assert(exact::size(err) * v == exact::size(err * v));
        assert(exact::size(err) * v <= bound * v);
    }
    // The last division.
    let small = 22 as real * g * t + 2 as real * g;
    assert(small <= t + 1 as real) by (nonlinear_arith)
        requires
            small == 22 as real * g * t + 2 as real * g,
            g * 0x10_0000_0000_0000 as real == 1 as real,
            g > 0 as real,
            t >= 0 as real,
    ;
    assert(exact::size(q) <= 2 as real * (t + 1 as real));
    assert(t <= c * c) by (nonlinear_arith)
        requires
            t * v == e,
            2 as real * e <= c,
            f <= v,
            f * c == 1 as real,
            f > 0 as real,
            c > 0 as real,
            t >= 0 as real,
    {
        assert(t * f <= t * v);
        assert((t * f) * c <= e * c);
        assert((t * f) * c == t * (f * c));
        assert(e * c <= c * c);
    }
    lemma_four_times_below_limit();
    exact::lemma_units(b);
    exact::lemma_over_exact(x.minus(b), b);
    let r = exact::value(x.minus(b).over(b));
    assert(exact::size(r - q) <= 2 as real * (t + 1 as real) * g + s) by (nonlinear_arith)
        requires
            exact::size(r - q) <= exact::size(q) * g + s,
            exact::size(q) <= 2 as real * (t + 1 as real),
            g > 0 as real,
    ;
    assert(s <= g) by (nonlinear_arith)
        requires
            s * 0x10_0000_0000_0000 as real <= f * f,
            f <= g,
            f > 0 as real,
            s > 0 as real,
            g * 0x10_0000_0000_0000 as real == 1 as real,
    ;
    assert(exact::size(r - (t - 1 as real)) <= 30 as real * g * (t + 1 as real))
        by (nonlinear_arith)
        requires
            exact::size(r - q) <= 2 as real * (t + 1 as real) * g + s,
            exact::size(q - (t - 1 as real)) <= 22 as real * g * t + 2 as real * g,
            s <= g,
            g > 0 as real,
            t >= 0 as real,
    {
        assert(exact::size(r - (t - 1 as real)) <= exact::size(r - q) + exact::size(
            q - (t - 1 as real),
        ));
    }
}

/// Four times 2^800, and more, is below 2^1000.
pub proof fn lemma_four_times_below_limit()
    ensures
        4 as real * (exact::ceiling() * exact::ceiling()) + 4 as real <= exact::limit(),
{
    lemma_pow2_adds(400, 400);
    lemma_pow2_adds(3, 800);
    lemma2_to64();
    lemma_pow2_strictly_increases(803, 1000);
    lemma_pow2_strictly_increases(2, 800);
    let c = exact::ceiling();
    assert((pow2(400) * pow2(400)) as real == c * c) by (nonlinear_arith)
        requires
            c == pow2(400) as real,
    ;
}

/// The raw deviation of a measurement is its distance from the baseline, relative to
/// the baseline, up to rounding.
pub proof fn lemma_raw_deviation_is_relative(m: RawMeasurement, p: HardwareProfile)
    requires
        m.op_count > 0,
        p.baseline(m.operation, m.precision).finite(),
        exact::floor() <= exact::value(p.baseline(m.operation, m.precision)) <= exact::ceiling(),
    ensures
        ({
            let b = exact::value(p.baseline(m.operation, m.precision));
            let far = exact::size(cost(m) / b - 1 as real);
            &&& detector::raw_deviation(m, p).finite()
            &&& exact::size(exact::value(detector::raw_deviation(m, p)) - far) <= hair() * (cost(m)
                / b + 1 as real)
        }),
{
    let baseline = p.baseline(m.operation, m.precision);
    let actual = types::observed_cycles(m, baseline);
    let b = exact::value(baseline);
    let e = cost(m);
    lemma_hair();
    exact::lemma_constants();
    exact::lemma_units(baseline);
    ladder::lemma_positive(0);
    lemma_quotient_of_counts(m.cycles as nat, m.op_count as nat);
    if m.cycles > 0 {
        lemma_counts_are_moderate(e);
    }
    lemma_relative_difference(actual, e, 9, baseline);
    // Taking the absolute value before dividing or after comes to the same.
    let gap = actual.minus(baseline);
    let signed = gap.over(baseline);
    let raw = gap.absolute().over(baseline);
    assert(detector::raw_deviation(m, p) == raw);
    assert(raw == signed.absolute());
    exact::lemma_units(signed);
    let r = exact::value(signed);
    let t = e / b;
    assert(t >= 0 as real) by (nonlinear_arith)
        requires
            t == e / b,
            e >= 0 as real,
            b > 0 as real,
    ;
    assert(exact::size(exact::size(r) - exact::size(t - 1 as real)) <= exact::size(
        r - (t - 1 as real),
    ));
    assert(30 as real * exact::grain() * (t + 1 as real) <= hair() * (t + 1 as real))
        by (nonlinear_arith)
        requires
            hair() == 0x1000 as real * exact::grain(),
            exact::grain() > 0 as real,
            t >= 0 as real,
    ;
}

/// A half, in doubles.
proof fn lemma_half_exact()
    ensures
        Datum::ratio(1, 2) is Signed,
        exact::value(Datum::ratio(1, 2)) * 2 as real == 1 as real,
{
    let half = ladder::lemma_on_ladder(1, 1073);
    lemma_pow2_unfold(1074);
    ladder::lemma_round_exact(half, 2);
    assert(Datum::ratio(1, 2) == (Datum::Signed { negative: false, rung: half }));
    exact::lemma_units(Datum::ratio(1, 2));
    lemma_pow2_pos(1074);
    let o = ladder::one() as real;
    let v = exact::value(Datum::ratio(1, 2));
    assert(v * 2 as real == 1 as real) by (nonlinear_arith)
        requires
            v * o * 2 as real == o,
            o > 0 as real,
    ;
}

/// A measurement is far off if its cycles per operation are more than half of the
/// baseline away from it, and not if they are less: over counts and baseline, up to
/// rounding.
pub proof fn lemma_far_off_is_more_than_half(m: RawMeasurement, p: HardwareProfile)
    requires
        m.op_count > 0,
        p.baseline(m.operation, m.precision).finite(),
        exact::floor() <= exact::value(p.baseline(m.operation, m.precision)) <= exact::ceiling(),
    ensures
        ({
            let b = exact::value(p.baseline(m.operation, m.precision));
            let away = exact::size(cost(m) - b);
            let room = 2 as real * hair() * (cost(m) + b);
            &&& 2 as real * away > b + room ==> detector::far_off(m, p)
            &&& 2 as real * away < b - room ==> !detector::far_off(m, p)
        }),
{
    let b = exact::value(p.baseline(m.operation, m.precision));
    let e = cost(m);
    let raw = detector::raw_deviation(m, p);
    let h = hair();
    let t = e / b;
    lemma_hair();
    exact::lemma_constants();
    lemma_raw_deviation_is_relative(m, p);
    lemma_half_exact();
    exact::lemma_value_order(Datum::ratio(1, 2), raw);
    let away = exact::size(e - b);
    let far = exact::size(t - 1 as real);
    assert(t * b == e && far * b == away) by (nonlinear_arith)
        requires
            t == e / b,
            far == exact::size(t - 1 as real),
            away == exact::size(e - b),
            b > 0 as real,
    {
        assert((t - 1 as real) * b == e - b);
    }
    let r = exact::value(raw);
    let room = 2 as real * h * (e + b);
    if 2 as real * away > b + room {
        assert(2 as real * r > 1 as real) by (nonlinear_arith)
            requires
                2 as real * (far * b) > b + room,
                room == 2 as real * h * (e + b),
                t * b == e,
                exact::size(r - far) <= h * (t + 1 as real),
                b > 0 as real,
        {
            assert(room == (2 as real * h * (t + 1 as real)) * b);
            assert((2 as real * far) * b > (1 as real + 2 as real * h * (t + 1 as real)) * b);
            assert(2 as real * far > 1 as real + 2 as real * h * (t + 1 as real));
            assert(r >= far - h * (t + 1 as real));
        }
    }
    if 2 as real * away < b - room {
        assert(2 as real * r < 1 as real) by (nonlinear_arith)
            requires
                2 as real * (far * b) < b - room,
                room == 2 as real * h * (e + b),
                t * b == e,
                exact::size(r - far) <= h * (t + 1 as real),
                b > 0 as real,
        {
            assert(room == (2 as real * h * (t + 1 as real)) * b);
            assert((2 as real * far) * b < (1 as real - 2 as real * h * (t + 1 as real)) * b);
            assert(2 as real * far < 1 as real - 2 as real * h * (t + 1 as real));
            assert(r <= far + h * (t + 1 as real));
        }
    }
}

/// With five measurements in its window, a detector reports every measurement that is
/// more than half off its baseline, and lays it to stage 2; one that is less than half
/// off is never laid to stage 2.
pub proof fn lemma_more_than_half_off_is_reported<E: Fn(Double) -> Double>(
    m: RawMeasurement,
    p: HardwareProfile,
    exp: E,
    fill: nat,
    stale: bool,
    lamport: u64,
    r: Option<Report>,
)
    requires
        detector::detects(m, p, exp, fill, stale, lamport, r),
        fill >= 5,
        m.op_count > 0,
        p.baseline(m.operation, m.precision).finite(),
        exact::floor() <= exact::value(p.baseline(m.operation, m.precision)) <= exact::ceiling(),
    ensures
        ({
            let b = exact::value(p.baseline(m.operation, m.precision));
            let away = exact::size(cost(m) - b);
            let room = 2 as real * hair() * (cost(m) + b);
            &&& 2 as real * away > b + room ==> (r matches Some(a) && a.stage == 2
                && a.measurement == m)
            &&& 2 as real * away < b - room ==> (r matches Some(a) ==> a.stage == 5)
        }),
{
    lemma_far_off_is_more_than_half(m, p);
}

/// With fewer than five measurements in its window, a detector reports nothing.
pub proof fn lemma_no_report_before_five<E: Fn(Double) -> Double>(
    m: RawMeasurement,
    p: HardwareProfile,
    exp: E,
    fill: nat,
    stale: bool,
    lamport: u64,
    r: Option<Report>,
)
    requires
        detector::detects(m, p, exp, fill, stale, lamport, r),
        fill < 5,
    ensures
        r is None,
{
}

/// The score of a report is the larger of the decision's score and the raw deviation,
/// the latter counted up to one.
pub proof fn lemma_report_score_is_the_larger(
    m: RawMeasurement,
    p: HardwareProfile,
    d: Decision,
    stale: bool,
    lamport: u64,
)
    requires
        detector::raw_deviation(m, p) is Signed,
        d.strength() is Signed,
    ensures
        detector::report_on(m, p, d, stale, lamport) matches Some(a) ==> {
            let raw = exact::value(detector::raw_deviation(m, p));
            let capped = if raw < 1 as real {
                raw
            } else {
                1 as real
            };
            let flagged = exact::value(d.strength());
            exact::value(a.score) == if capped < flagged {
                flagged
            } else {
                capped
            }
        },
{
    exact::lemma_whole_exact(1);
    let raw = detector::raw_deviation(m, p);
    exact::lemma_value_order(Datum::whole(1), raw);
    exact::lemma_value_order(raw, d.strength());
    exact::lemma_value_order(Datum::whole(1), d.strength());
}

/// The deviation of a measurement against an expectation, as a prediction takes it.
pub proof fn lemma_prediction_deviation(prediction: PredictedMeasurement, m: RawMeasurement)
    requires
        m.op_count > 0,
        prediction.expected_cycles_per_op@.finite(),
        exact::floor() <= exact::value(prediction.expected_cycles_per_op@) <= exact::ceiling(),
    ensures
        ({
            let e = exact::value(prediction.expected_cycles_per_op@);
            &&& prediction.deviation(m).finite()
            &&& exact::size(exact::value(prediction.deviation(m)) - (cost(m) / e - 1 as real))
                <= 30 as real * exact::grain() * (cost(m) / e + 1 as real)
            &&& cost(m) / e >= 0 as real
        }),
{
    let expected = prediction.expected_cycles_per_op@;
    let c = cost(m);
    let e = exact::value(expected);
    exact::lemma_constants();
    exact::lemma_units(expected);
    ladder::lemma_positive(0);
    lemma_quotient_of_counts(m.cycles as nat, m.op_count as nat);
    if m.cycles > 0 {
        lemma_counts_are_moderate(c);
    }
    lemma_relative_difference(types::observed_cycles(m, expected), c, 9, expected);
    assert(c / e >= 0 as real) by (nonlinear_arith)
        requires
            c >= 0 as real,
            e > 0 as real,
    ;
}

/// A prediction is confirmed by cycles per operation that lie within the tolerance of
/// what was expected, on either side, and by no others, up to rounding. The tolerance is
/// the tolerated number of standard deviations, relative to what was expected.
pub proof fn lemma_confirmed_within_tolerance(
    prediction: PredictedMeasurement,
    m: RawMeasurement,
    p: HardwareProfile,
)
    requires
        m.op_count > 0,
        prediction.expected_cycles_per_op@.finite(),
        exact::floor() <= exact::value(prediction.expected_cycles_per_op@) <= exact::ceiling(),
        prediction.tolerance_sigma@.finite(),
        exact::size(exact::value(prediction.tolerance_sigma@)) <= exact::ceiling(),
        p.spread(prediction.operation, prediction.precision).1.finite(),
        exact::size(exact::value(p.spread(prediction.operation, prediction.precision).1))
            <= exact::ceiling(),
    ensures
        ({
            let e = exact::value(prediction.expected_cycles_per_op@);
            let t = exact::value(prediction.tolerance_sigma@) * exact::value(
                p.spread(prediction.operation, prediction.precision).1,
            );
            let away = exact::size(cost(m) - e);
            let room = hair() * (cost(m) + e + exact::size(t) * e);
            &&& prediction.met_by(m, p) ==> away <= t * e + room
            &&& away <= t * e - room ==> prediction.met_by(m, p)
        }),
{
    let e = exact::value(prediction.expected_cycles_per_op@);
    let sigma = prediction.tolerance_sigma@;
    let width = p.spread(prediction.operation, prediction.precision).1;
    let t = exact::value(sigma) * exact::value(width);
    let c = cost(m);
    let g = exact::grain();
    let s = exact::speck();
    let h = hair();
    lemma_hair();
    exact::lemma_constants();
    lemma_prediction_deviation(prediction, m);
    let (vs, vw) = (exact::value(sigma), exact::value(width));
    let k = exact::ceiling();
    assert(exact::size(t) <= k * k) by (nonlinear_arith)
        requires
            t == vs * vw,
            exact::size(vs) <= k,
            exact::size(vw) <= k,
    {
        assert(exact::size(vs * vw) == exact::size(vs) * exact::size(vw));
        assert(exact::size(vs) * exact::size(vw) <= k * exact::size(vw));
        assert(k * exact::size(vw) <= k * k);
    }
    exact::lemma_times_exact(sigma, width);
    let tol = exact::value(prediction.tolerance(p));
    let deviation = prediction.deviation(m);
    exact::lemma_units(deviation);
    exact::lemma_value_order(deviation.absolute(), prediction.tolerance(p));
    exact::lemma_value_order(prediction.tolerance(p), deviation.absolute());
    let size = exact::size(exact::value(deviation));
    assert(prediction.met_by(m, p) <==> size <= tol);
    let q = c / e;
    let far = exact::size(q - 1 as real);
    let away = exact::size(c - e);
    assert(q * e == c && far * e == away) by (nonlinear_arith)
        requires
            q == c / e,
            far == exact::size(q - 1 as real),
            away == exact::size(c - e),
            e > 0 as real,
    {
        assert((q - 1 as real) * e == c - e);
    }
    assert(exact::size(size - far) <= 30 as real * g * (q + 1 as real));
    assert(s <= g) by (nonlinear_arith)
        requires
            s * 0x10_0000_0000_0000 as real <= exact::floor() * exact::floor(),
            exact::floor() <= g,
            exact::floor() > 0 as real,
            s > 0 as real,
            g * 0x10_0000_0000_0000 as real == 1 as real,
    ;
    let slack = h * (q + 1 as real + exact::size(t));
    assert(exact::size(size - far) + exact::size(tol - t) <= slack) by (nonlinear_arith)
        requires
            exact::size(size - far) <= 30 as real * g * (q + 1 as real),
            exact::size(tol - t) <= exact::size(t) * g + s,
            s <= g,
            h == 0x1000 as real * g,
            g > 0 as real,
            q >= 0 as real,
            exact::size(t) >= 0 as real,
            slack == h * (q + 1 as real + exact::size(t)),
    ;
    let room = h * (c + e + exact::size(t) * e);
    assert(room == slack * e) by (nonlinear_arith)
        requires
            room == h * (c + e + exact::size(t) * e),
            slack == h * (q + 1 as real + exact::size(t)),
            q * e == c,
    ;
    assert((size <= tol ==> far * e <= t * e + slack * e) && (far * e <= t * e - slack * e ==> size
        <= tol)) by (nonlinear_arith)
        requires
            exact::size(size - far) + exact::size(tol - t) <= slack,
            e > 0 as real,
    {
        if size <= tol {
            assert(far <= t + slack);
            assert(far * e <= (t + slack) * e);
        }
        if far * e <= t * e - slack * e {
            assert(far * e <= (t - slack) * e);
            assert(far <= t - slack);
        }
    }
}

/// Deviations that differ in sign alone are confirmed alike.
pub proof fn lemma_confirmed_on_both_sides(
    prediction: PredictedMeasurement,
    m: RawMeasurement,
    other: RawMeasurement,
    p: HardwareProfile,
)
    requires
        prediction.deviation(m) == prediction.deviation(other).negated(),
    ensures
        prediction.met_by(m, p) == prediction.met_by(other, p),
{
}

/// What a detector predicts is confirmed by cycles per operation that lie within so many
/// standard deviations of the baseline, and by no others: over profile and counts, up
/// to rounding.
pub proof fn lemma_prediction_means_the_baseline(
    p: HardwareProfile,
    sigma: Double,
    op: Operation,
    prec: Precision,
    t_minus_ns: Option<u64>,
    lamport: u64,
    prediction: PredictedMeasurement,
    m: RawMeasurement,
)
    requires
        detector::forecasts(p, sigma, op, prec, t_minus_ns, lamport, prediction),
        m.op_count > 0,
        p.baseline(op, prec).finite(),
        exact::floor() <= exact::value(p.baseline(op, prec)) <= exact::ceiling(),
        sigma@.finite(),
        exact::size(exact::value(sigma@)) <= exact::ceiling(),
        p.spread(op, prec).1.finite(),
        exact::size(exact::value(p.spread(op, prec).1)) <= exact::ceiling(),
    ensures
        ({
            let b = exact::value(p.baseline(op, prec));
            let t = exact::value(sigma@) * exact::value(p.spread(op, prec).1);
            let away = exact::size(cost(m) - b);
            let room = hair() * (cost(m) + b + exact::size(t) * b);
            &&& prediction.met_by(m, p) ==> away <= t * b + room
            &&& away <= t * b - room ==> prediction.met_by(m, p)
        }),
        prediction.operation == op,
        prediction.precision == prec,
        !prediction.confirmed,
{
    lemma_confirmed_within_tolerance(prediction, m, p);
}

} // verus!
