//! What counts, look-ups and synthetic loads come to, in exact numbers.
use crate::detector;
use crate::detector::Window;
use crate::double::{Datum, Double};
use crate::exact;
use crate::ladder;
use crate::meaning;
use crate::report;
use crate::scenario;
use crate::types;
use crate::types::{
    Decision, HardwareProfile, Operation, Precision, PredictedMeasurement, RawMeasurement,
};
use vstd::arithmetic::power2::*;
use vstd::prelude::*;

verus! {

/// Comparing doubles is comparing the numbers that they stand for; not-a-number compares
/// with nothing.
pub proof fn lemma_comparisons(x: Datum, y: Datum)
    ensures
        x is Signed && y is Signed ==> {
            let (a, b) = (exact::value(x), exact::value(y));
            &&& x.less(y) <==> a < b
            &&& x.equal(y) <==> a == b
            &&& exact::value(x.larger(y)) == if a < b {
                b
            } else {
                a
            }
            &&& exact::value(x.smaller(y)) == if a < b {
                a
            } else {
                b
            }
        },
        x is Nan || y is Nan ==> !x.less(y) && !x.equal(y),
{
    exact::lemma_value_order(x, y);
    exact::lemma_value_order(y, x);
}

/// Bringing a number into a range leaves it where it is in the range, and takes it to the
/// nearer end where it is not.
pub proof fn lemma_clamped(x: Datum, low: Datum, high: Datum)
    requires
        x is Signed,
        low is Signed,
        high is Signed,
        exact::value(low) <= exact::value(high),
    ensures
        exact::value(x.clamped(low, high)) == if exact::value(x) < exact::value(low) {
            exact::value(low)
        } else if exact::value(x) > exact::value(high) {
            exact::value(high)
        } else {
            exact::value(x)
        },
{
    lemma_comparisons(x, low);
    lemma_comparisons(high, x);
}

/// The absolute value is the distance from zero; negation turns the sign.
pub proof fn lemma_signs(x: Datum)
    requires
        x is Signed,
    ensures
        exact::value(x.absolute()) == exact::size(exact::value(x)),
        exact::value(x.negated()) == 0 as real - exact::value(x),
{
    exact::lemma_units(x);
    exact::lemma_negated(x);
}

/// Cutting a number gives the largest whole number that is not above it, zero for what is
/// below zero, and the largest `u64` for what is beyond.
pub proof fn lemma_truncated(x: Datum)
    ensures
        x is Nan ==> x.truncated() == 0,
        x is Signed && exact::value(x) <= 0 as real ==> x.truncated() == 0,
        x is Signed && exact::value(x) >= 0x1_0000_0000_0000_0000 as real ==> x.truncated()
            == u64::MAX,
        x is Signed && 0 as real <= exact::value(x) && exact::value(x)
            < 0x1_0000_0000_0000_0000 as real ==> x.truncated() as real <= exact::value(x)
            && exact::value(x) < x.truncated() as real + 1 as real,
{
    let one = ladder::one();
    lemma_pow2_pos(1074);
    exact::lemma_units(x);
    ladder::lemma_positive(0);
    if let Datum::Signed { negative, rung } = x {
        let u = ladder::mag(rung);
        let w = u / one;
        let o = one as real;
        let v = exact::value(x);
        assert(w * one <= u && u < w * one + one) by (nonlinear_arith)
            requires
                w == u / one,
                one > 0,
        ;
        assert((w * one) as real == (w as real) * o) by (nonlinear_arith)
            requires
                o == one as real,
        ;
        if !negative {
            assert(w as real <= v && v < w as real + 1 as real) by (nonlinear_arith)
                requires
                    (w as real) * o <= v * o,
                    v * o < (w as real) * o + o,
                    o > 0 as real,
            ;
        }
    }
}

/// The rate of anomalies is their share in all measurements, up to rounding; zero before
/// the first.
pub proof fn lemma_rate_is_the_share(w: Window)
    requires
        w.valid(),
        w.total <= u64::MAX,
    ensures
        detector::anomaly_rate(w).finite(),
        w.total == 0 ==> exact::value(detector::anomaly_rate(w)) == 0 as real,
        w.total > 0 ==> exact::near(
            exact::value(detector::anomaly_rate(w)),
            w.anomalies as real / w.total as real,
            9,
        ),
{
    ladder::lemma_positive(0);
    exact::lemma_units(Datum::zero(false));
    if w.total > 0 {
        meaning::lemma_quotient_of_counts(w.anomalies, w.total);
    }
}

/// A share in percent is a hundred times the share, up to one rounding.
pub proof fn lemma_percent(share: Datum)
    requires
        share.finite(),
        exact::size(exact::value(share)) <= exact::ceiling(),
    ensures
        report::percent(share).finite(),
        exact::rounds(exact::value(report::percent(share)), 100 as real * exact::value(share)),
{
    exact::lemma_whole_exact(100);
    exact::lemma_constants();
    let v = exact::value(share);
    let c = exact::ceiling();
    assert(exact::size(v * 100 as real) <= c * c) by (nonlinear_arith)
        requires
            exact::size(v) <= c,
            c >= 0x10_0000_0000_0000 as real,
    {
        assert(exact::size(v * 100 as real) <= 100 as real * c);
        assert(100 as real * c <= c * c);
    }
    exact::lemma_times_exact(share, Datum::whole(100));
}

/// Anomalies in percent of all results: a hundred times their number over that of all,
/// up to rounding; zero without results.
pub proof fn lemma_anomaly_percent(anomalies: nat, all: nat)
    requires
        anomalies <= all <= u64::MAX,
    ensures
        report::anomaly_percent(anomalies, all).finite(),
        all == 0 ==> exact::value(report::anomaly_percent(anomalies, all)) == 0 as real,
        all > 0 ==> exact::size(
            exact::value(report::anomaly_percent(anomalies, all)) - 100 as real * (anomalies as real
                / all as real),
        ) <= meaning::hair(),
{
    ladder::lemma_positive(0);
    exact::lemma_units(Datum::zero(false));
    if all > 0 {
        let share = Datum::whole(anomalies as int).over(Datum::whole(all as int));
        let e = anomalies as real / all as real;
        let v = exact::value(share);
        let g = exact::grain();
        let s = exact::speck();
        let r = exact::value(report::percent(share));
        exact::lemma_constants();
        meaning::lemma_hair();
        meaning::lemma_quotient_of_counts(anomalies, all);
        assert(e <= 1 as real) by (nonlinear_arith)
            requires
                e == anomalies as real / all as real,
                anomalies as real <= all as real,
                all as real > 0 as real,
        ;
        assert(exact::size(v - e) <= 9 as real * g) by (nonlinear_arith)
            requires
                exact::size(v - e) <= 9 as real * g * exact::size(e),
                0 as real <= e <= 1 as real,
                g > 0 as real,
        ;
        assert(exact::size(v) <= 2 as real);
        lemma_percent(share);
        assert(s <= g) by (nonlinear_arith)
            requires
                s * 0x10_0000_0000_0000 as real <= exact::floor() * exact::floor(),
                exact::floor() <= g,
                exact::floor() > 0 as real,
                s > 0 as real,
                g * 0x10_0000_0000_0000 as real == 1 as real,
        ;
        assert(exact::size(100 as real * v) * g <= 200 as real * g) by (nonlinear_arith)
            requires
                exact::size(v) <= 2 as real,
                g > 0 as real,
        {
            assert(exact::size(100 as real * v) <= 200 as real);
        }
    }
}

/// A difference in temperature is in degrees: a thousandth of the one in thousandths, up
/// to rounding. It is known where the temperature is.
pub proof fn lemma_warming_in_degrees(m: RawMeasurement, reference: i64)
    requires
        m.comparable(Some(reference)),
    ensures
        m.temp_mc is None ==> m.warming(reference) is None,
        m.temp_mc matches Some(t) ==> (m.warming(reference) matches Some(d) && d.finite()
            && exact::size(exact::value(d) * 1000 as real - (t - reference) as real)
            <= meaning::hair() * exact::size((t - reference) as real)),
{
    if let Some(t) = m.temp_mc {
        let i: int = t - reference;
        let n: nat = if i < 0 {
            -i as nat
        } else {
            i as nat
        };
        let q = Datum::whole(n as int).over(Datum::whole(1000));
        let d = Datum::whole(i).over(Datum::whole(1000));
        let e = n as real / 1000 as real;
        let g = exact::grain();
        meaning::lemma_hair();
        exact::lemma_constants();
        meaning::lemma_quotient_of_counts(n, 1000);
        exact::lemma_whole_exact(1000);
        exact::lemma_whole_exact(n as int);
        exact::lemma_whole_exact(i);
        assert(i < 0 ==> Datum::whole(i) == Datum::whole(n as int).negated());
        assert(i < 0 ==> d == q.negated());
        exact::lemma_negated(q);
        let v = exact::value(q);
        assert(exact::size(v * 1000 as real - n as real) <= meaning::hair() * n as real)
            by (nonlinear_arith)
            requires
                exact::size(v - e) <= 9 as real * g * exact::size(e),
                e * 1000 as real == n as real,
                e >= 0 as real,
                g > 0 as real,
                meaning::hair() == 0x1000 as real * g,
        {
            assert(exact::size(v * 1000 as real - n as real) == exact::size(v - e) * 1000 as real);
        }
    }
}

/// What is looked up where calibration filed nothing: one cycle per operation, a
/// thousandth per degree, and a spread of a tenth around zero.
pub proof fn lemma_unprofiled(p: HardwareProfile, op: Operation, prec: Precision)
    ensures
        p.baseline_cycles.held(HardwareProfile::key(op, prec)) is None ==> exact::value(
            p.baseline(op, prec),
        ) == 1 as real,
        p.thermal_coefficients.held(HardwareProfile::key(op, prec)) is None ==> exact::near(
            exact::value(p.thermal(op, prec)),
            1 as real / 1000 as real,
            2,
        ),
        p.utilization_baselines.held(HardwareProfile::key(op, prec)) is None ==> exact::value(
            p.spread(op, prec).0,
        ) == 0 as real && exact::near(exact::value(p.spread(op, prec).1), 1 as real / 10 as real, 2),
{
    ladder::lemma_positive(0);
    exact::lemma_units(Datum::zero(false));
    exact::lemma_whole_exact(1);
    exact::lemma_ratio_exact(1, 1000);
    exact::lemma_ratio_exact(1, 10);
    exact::lemma_constants();
    let f = exact::floor();
    let g = exact::grain();
    assert(f * f <= 1 as real / 1000 as real && f * f <= 1 as real / 10 as real)
        by (nonlinear_arith)
        requires
            f > 0 as real,
            f <= g,
            g * 0x10_0000_0000_0000 as real == 1 as real,
    ;
    exact::lemma_near_rounds(exact::value(Datum::ratio(1, 1000)), 1 as real / 1000 as real);
    exact::lemma_near_rounds(exact::value(Datum::ratio(1, 10)), 1 as real / 10 as real);
}

/// What calibration filed for an operation is what is looked up for it, in its own
/// precision.
pub proof fn lemma_profiled(
    p: HardwareProfile,
    op: Operation,
    prec: Precision,
    cycles: Double,
    heat: Double,
    spread: (Double, Double),
)
    requires
        p.baseline_cycles.held(HardwareProfile::key(op, prec)) == Some(cycles),
        p.thermal_coefficients.held(HardwareProfile::key(op, prec)) == Some(heat),
        p.utilization_baselines.held(HardwareProfile::key(op, prec)) == Some(spread),
    ensures
        p.baseline(op, prec) == cycles@,
        p.thermal(op, prec) == heat@,
        p.spread(op, prec) == (spread.0@, spread.1@),
{
}

/// A key is the name of an operation, a slash and the name of a precision.
pub proof fn lemma_key_parts(op: Operation, prec: Precision)
    ensures
        ({
            let key = HardwareProfile::key(op, prec);
            let n = op.name().len() as int;
            &&& key.len() == n + 1 + prec.name().len()
            &&& key.take(n) == op.name()
            &&& key[n] == '/'
            &&& key.skip(n + 1) == prec.name()
        }),
{
    reveal_strlit("/");
    let key = HardwareProfile::key(op, prec);
    let n = op.name().len() as int;
    assert(key.take(n) =~= op.name());
    assert(key.skip(n + 1) =~= prec.name());
}

/// No two operations, and no two precisions, share a name; each operation has a precision
/// of its own.
pub proof fn lemma_names_tell_apart(a: Operation, b: Operation, p: Precision, q: Precision)
    ensures
        a.name() == b.name() ==> a == b,
        a.variant_name() == b.variant_name() ==> a == b,
        a.own_precision() == b.own_precision() ==> a == b,
        p.name() == q.name() ==> p == q,
{
    reveal_strlit("INT8-PACKED-VNNI");
    reveal_strlit("INT32-SCALAR");
    reveal_strlit("FP64-NORM");
    reveal_strlit("EISENSTEIN-MUL");
    reveal_strlit("Int8PackedVnni");
    reveal_strlit("Int32Scalar");
    reveal_strlit("Fp64Norm");
    reveal_strlit("EisensteinMultiply");
    reveal_strlit("i8");
    reveal_strlit("i32");
    reveal_strlit("f64");
    reveal_strlit("eis");
    assert(a.name().len() == b.name().len() ==> a == b);
    assert(a.variant_name().len() == b.variant_name().len() ==> a == b);
    if p.name() == q.name() {
        assert(p.name()[0] == q.name()[0]);
        assert(p.name()[1] == q.name()[1]);
    }
}

/// A measurement without operations shows no deviation: neither raw nor from what was
/// predicted.
pub proof fn lemma_no_operations_no_deviation(
    m: RawMeasurement,
    p: HardwareProfile,
    prediction: PredictedMeasurement,
)
    requires
        m.op_count == 0,
    ensures
        p.baseline(m.operation, m.precision).finite() ==> exact::value(
            detector::raw_deviation(m, p),
        ) == 0 as real && !detector::far_off(m, p),
        prediction.expected_cycles_per_op@.finite() ==> exact::value(prediction.deviation(m))
            == 0 as real,
{
    lemma_nothing_over(p.baseline(m.operation, m.precision));
    lemma_nothing_over(prediction.expected_cycles_per_op@);
    exact::lemma_ratio_exact(1, 2);
    exact::lemma_value_order(Datum::ratio(1, 2), detector::raw_deviation(m, p));
}

/// A number less itself, over itself.
proof fn lemma_nothing_over(x: Datum)
    ensures
        exact::value(Datum::zero(false)) == 0 as real,
        x.finite() && Datum::zero(false).less(x) ==> exact::value(x.minus(x).over(x)) == 0 as real
            && exact::value(x.minus(x).absolute().over(x)) == 0 as real,
{
    ladder::lemma_positive(0);
    exact::lemma_units(Datum::zero(false));
    if x.finite() && Datum::zero(false).less(x) {
        if let Datum::Signed { rung, .. } = x {
            ladder::lemma_positive(rung);
            ladder::lemma_round_exact(0, ladder::mag(rung));
            assert(0 * ladder::one() == 0 && 0 * ladder::mag(rung) == 0);
        }
        assert(x.minus(x) == Datum::zero(false));
    }
}

/// Holding a prediction against a measurement notes how far the cycles per operation are
/// off, relative to what was expected and with the sign, up to rounding; it confirms the
/// prediction or not, and changes nothing else.
pub proof fn lemma_noted_deviation(
    before: PredictedMeasurement,
    after: PredictedMeasurement,
    m: RawMeasurement,
    p: HardwareProfile,
)
    requires
        after.checked_against(before, m, p),
        m.op_count > 0,
        before.expected_cycles_per_op@.finite(),
        exact::floor() <= exact::value(before.expected_cycles_per_op@) <= exact::ceiling(),
    ensures
        after.actual_deviation matches Some(d) && {
            let e = exact::value(before.expected_cycles_per_op@);
            exact::size(exact::value(d@) * e - (meaning::cost(m) - e)) <= meaning::hair() * (
            meaning::cost(m) + e)
        },
        after.operation == before.operation,
        after.precision == before.precision,
        after.expected_cycles_per_op == before.expected_cycles_per_op,
        after.tolerance_sigma == before.tolerance_sigma,
        after.t_minus_event_ns == before.t_minus_event_ns,
        after.lamport == before.lamport,
{
    meaning::lemma_prediction_deviation(before, m);
    meaning::lemma_hair();
    exact::lemma_constants();
    let e = exact::value(before.expected_cycles_per_op@);
    let d = exact::value(before.deviation(m));
    let c = meaning::cost(m);
    let g = exact::grain();
    let q = c / e;
    assert(exact::size(d * e - (c - e)) <= meaning::hair() * (c + e)) by (nonlinear_arith)
        requires
            exact::size(d - (q - 1 as real)) <= 30 as real * g * (q + 1 as real),
            q == c / e,
            q >= 0 as real,
            e > 0 as real,
            g > 0 as real,
            meaning::hair() == 0x1000 as real * g,
    {
        let err = d - (q - 1 as real);
        assert(q * e == c);
        assert(d * e - (c - e) == err * e);
        assert(exact::size(err * e) == exact::size(err) * e);
        assert(exact::size(err) * e <= (30 as real * g * (q + 1 as real)) * e);
        assert((30 as real * g * (q + 1 as real)) * e == 30 as real * g * (c + e));
        assert(c >= 0 as real);
    }
}

/// The first prediction for the operation and precision of a measurement that is not
/// confirmed yet is the one that waits for it.
pub proof fn lemma_first_open_prediction_waits(
    predictions: Seq<PredictedMeasurement>,
    m: RawMeasurement,
    i: int,
)
    requires
        0 <= i < predictions.len(),
    ensures
        detector::awaits(predictions, m, i) <==> {
            &&& predictions[i].operation == m.operation
            &&& predictions[i].precision == m.precision
            &&& !predictions[i].confirmed
            &&& forall|j: int|
                0 <= j < i ==> ((#[trigger] predictions[j]).operation != m.operation
                    || predictions[j].precision != m.precision || predictions[j].confirmed)
        },
{
    if detector::awaits(predictions, m, i) {
        assert forall|j: int| 0 <= j < i implies ((#[trigger] predictions[j]).operation
            != m.operation || predictions[j].precision != m.precision
            || predictions[j].confirmed) by {
            assert(!detector::waiting(predictions[j], m));
        }
    }
}

/// A whole multiple of a number, cut: less than one below it, up to rounding.
proof fn lemma_multiple_truncated(b: Datum, k: nat)
    requires
        b.finite(),
        0 < k <= 0x10_0000,
        exact::value(b) >= 0 as real,
        exact::value(b) * k as real <= 0x8000_0000_0000_0000 as real,
    ensures
        ({
            let t = b.times(Datum::whole(k as int)).truncated();
            let x = exact::value(b) * k as real;
            &&& t <= u64::MAX
            &&& t as real <= x + meaning::hair() * (x + 1 as real)
            &&& t as real + 1 as real > x - meaning::hair() * (x + 1 as real)
            &&& t < 0x8000_0000_0100_0000
        }),
{
    let w = Datum::whole(k as int);
    let x = exact::value(b) * k as real;
    let g = exact::grain();
    let s = exact::speck();
    exact::lemma_whole_exact(k as int);
    exact::lemma_constants();
    meaning::lemma_hair();
    assert(x >= 0 as real) by (nonlinear_arith)
        requires
            x == exact::value(b) * k as real,
            exact::value(b) >= 0 as real,
            k as real > 0 as real,
    ;
    lemma2_to64();
    lemma_pow2_strictly_increases(64, 1000);
    exact::lemma_times_exact(b, w);
    let product = b.times(w);
    let v = exact::value(product);
    assert(s <= g) by (nonlinear_arith)
        requires
            s * 0x10_0000_0000_0000 as real <= exact::floor() * exact::floor(),
            exact::floor() <= g,
            exact::floor() > 0 as real,
            s > 0 as real,
            g * 0x10_0000_0000_0000 as real == 1 as real,
    ;
    let h = meaning::hair();
    assert(x * g + s <= h * (x + 1 as real)) by (nonlinear_arith)
        requires
            x >= 0 as real,
            s <= g,
            h == 0x1000 as real * g,
            g > 0 as real,
    ;
    assert(h * (x + 1 as real) <= 0x100_0000 as real) by (nonlinear_arith)
        requires
            h * 0x100_0000_0000 as real == 1 as real,
            x <= 0x8000_0000_0000_0000 as real,
            x >= 0 as real,
            h > 0 as real,
    {
        assert(h * (x + 1 as real) <= h * (0x8000_0000_0000_0001 as real));
        assert(0x8000_0000_0000_0001 as real <= 0x100_0000_0000 as real * 0x100_0000 as real);
    }
    lemma_truncated(product);
    assert(x <= v + h * (x + 1 as real));
    if v < 0 as real {
        assert(product.truncated() == 0);
    }
}

/// A measurement of the benchmark is a thousand operations at the baseline of its
/// operation, with up to nine cycles more, in turn, up to rounding; the operations come
/// in turn too, each in its own precision, a millisecond apart.
pub proof fn lemma_benchmark_runs_at_the_baseline(p: HardwareProfile, i: nat)
    requires
        i < scenario::BENCHMARK_SIZE,
        ({
            let op = scenario::benchmark_operation(i);
            let b = p.baseline(op, op.own_precision());
            &&& b.finite()
            &&& exact::value(b) >= 0 as real
            &&& exact::value(b) * 1000 as real <= 0x8000_0000_0000_0000 as real
        }),
    ensures
        ({
            let m = scenario::benchmark_measurement(p, i);
            let x = exact::value(p.baseline(m.operation, m.precision)) * 1000 as real;
            let extra = (i % 10) as real;
            let room = meaning::hair() * (x + 1 as real);
            &&& m.cycles as real <= x + extra + room
            &&& m.cycles as real + 1 as real > x + extra - room
            &&& m.op_count == 1000
            &&& m.precision == m.operation.own_precision()
            &&& m.timestamp_ns == i * 1_000_000
            &&& m.temp_mc is None
            &&& m.operation == scenario::benchmark_measurement(p, i + 4).operation
            &&& i % 4 == 0 ==> m.operation == Operation::Int8PackedVnni
            &&& i % 4 == 1 ==> m.operation == Operation::Int32Scalar
            &&& i % 4 == 2 ==> m.operation == Operation::Fp64Norm
            &&& i % 4 == 3 ==> m.operation == Operation::EisensteinMultiply
        }),
{
    let op = scenario::benchmark_operation(i);
    lemma_multiple_truncated(p.baseline(op, op.own_precision()), 1000);
    assert((i + 4) % 4 == i % 4);
}

/// The samples of the experiment are a thousand scalar operations: at the baseline for
/// the first hundred, and at ten times the baseline from there on, up to rounding.
pub proof fn lemma_experiment_slows_down(p: HardwareProfile, i: nat)
    requires
        i < 0x100_0000,
        ({
            let b = p.baseline(Operation::Int32Scalar, Precision::Int32);
            &&& b.finite()
            &&& exact::value(b) >= 0 as real
            &&& exact::value(b) * 10000 as real <= 0x8000_0000_0000_0000 as real
        }),
    ensures
        ({
            let m = scenario::experiment_sample(p, i);
            let b = exact::value(p.baseline(Operation::Int32Scalar, Precision::Int32));
            let x = b * if i < 100 {
                1000 as real
            } else {
                10000 as real
            };
            let room = meaning::hair() * (x + 1 as real);
            &&& m.cycles as real <= x + room
            &&& m.cycles as real + 1 as real > x - room
            &&& m.op_count == 1000
            &&& m.operation == Operation::Int32Scalar
            &&& m.precision == Precision::Int32
            &&& m.timestamp_ns == i * 1_000_000
            &&& m.temp_mc == Some(45000i64)
        }),
{
    let b = p.baseline(Operation::Int32Scalar, Precision::Int32);
    assert(exact::value(b) * 1000 as real <= exact::value(b) * 10000 as real) by (nonlinear_arith)
        requires
            exact::value(b) >= 0 as real,
    ;
    lemma_multiple_truncated(
        b,
        if i < 100 {
            1000
        } else {
            10000
        },
    );
}

/// A report is on its measurement, active, and carries the time that it was made at. One
/// that contradicts a confirmed prediction differs in its description alone, by a note at
/// the end.
pub proof fn lemma_report_is_on_its_measurement(
    m: RawMeasurement,
    p: HardwareProfile,
    d: Decision,
    lamport: u64,
    later: u64,
)
    ensures
        ({
            let plain = detector::report_on(m, p, d, false, lamport);
            let stale = detector::report_on(m, p, d, true, later);
            &&& plain is Some <==> stale is Some
            &&& d is Anomalous ==> plain is Some
            &&& (plain matches Some(a) ==> {
                let b = stale->Some_0;
                let note = b.description.skip(a.description.len() as int);
                &&& a.measurement == m
                &&& a.tile_state == types::TileState::Active
                &&& a.lamport == lamport
                &&& b.measurement == m
                &&& b.tile_state == types::TileState::Active
                &&& b.lamport == later
                &&& b.score == a.score
                &&& b.stage == a.stage
                &&& b.description.take(a.description.len() as int) == a.description
                &&& note
                    == " [STALE-PROFILE: prediction confirmed but pipeline flagged anomaly]"@
            })
        }),
{
    let plain = detector::report_on(m, p, d, false, lamport);
    let stale = detector::report_on(m, p, d, true, later);
    if let (Some(a), Some(b)) = (plain, stale) {
        let n = a.description.len() as int;
        let note = " [STALE-PROFILE: prediction confirmed but pipeline flagged anomaly]"@;
        assert(b.description =~= a.description + note);
        assert(b.description.take(n) =~= a.description);
        assert(b.description.skip(n) =~= note);
    }
}

} // verus!
