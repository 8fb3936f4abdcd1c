//! What holds of the pipeline and the detector as a whole.
use crate::detector;
use crate::detector::{Window, MINIMUM_FILL};
use crate::double::{Datum, Double};
use crate::fold;
use crate::ladder;
use crate::ladder::{BINADE, TOP};
use crate::order;
use crate::types;
use crate::types::{Decision, HardwareProfile, PredictedMeasurement, RawMeasurement, Report};
use vstd::arithmetic::power2::*;
use vstd::prelude::*;

verus! {

/// A whole number of up to 53 bits is a double.
pub proof fn lemma_whole(i: nat) -> (rung: nat)
    requires
        i <= 2 * BINADE,
    ensures
        rung < TOP,
        Datum::whole(i as int) == (Datum::Signed { negative: false, rung }),
        ladder::mag(rung) == i * ladder::one(),
        rung == 0 <==> i == 0,
{
    let rung = ladder::lemma_on_ladder(i, 1074);
    ladder::lemma_round_exact(rung, 1);
    assert(ladder::mag(rung) * 1 == ladder::mag(rung));
    ladder::lemma_positive(rung);
    lemma_pow2_pos(1074);
    assert(i * ladder::one() == 0 <==> i == 0) by (nonlinear_arith)
        requires
            ladder::one() > 0,
    ;
    rung
}

/// Taking zero away changes nothing.
pub proof fn lemma_minus_zero(x: Datum)
    requires
        x matches Datum::Signed { rung, .. } ==> rung <= TOP,
    ensures
        x.minus(Datum::zero(false)) == x,
{
    ladder::lemma_positive(0);
    if let Datum::Signed { negative, rung } = x {
        ladder::lemma_positive(rung);
        if 0 < rung < TOP {
            ladder::lemma_round_exact(rung, 1);
            assert(ladder::mag(rung) * 1 == ladder::mag(rung));
        }
    }
}

/// A score is not a number or lies from zero to one, and so does a confidence.
pub proof fn lemma_scores_in_range(distance: Datum, tail: Datum)
    ensures
        !fold::anomaly_score(distance, tail).less(Datum::zero(false)),
        !Datum::whole(1).less(fold::anomaly_score(distance, tail)),
        !fold::confidence(distance).less(Datum::zero(false)),
        !Datum::whole(1).less(fold::confidence(distance)),
{
    let one = lemma_whole(1);
    ladder::lemma_positive(0);
    ladder::lemma_positive(one);
}

/// A quotient is on the ladder.
proof fn lemma_over_on_ladder(x: Datum, y: Datum)
    ensures
        x.over(y) matches Datum::Signed { rung, .. } ==> rung <= TOP,
{
    if let (Datum::Signed { rung: a, .. }, Datum::Signed { rung: b, .. }) = (x, y) {
        if b != 0 {
            ladder::lemma_positive(b);
            ladder::lemma_rounds_to_nearest(ladder::mag(a) * ladder::one(), ladder::mag(b));
        }
    }
}

/// A deviation is not a number, or one that a double can be.
proof fn lemma_deviation_on_ladder(m: RawMeasurement, p: HardwareProfile)
    ensures
        fold::deviation_of(m, p) is Signed ==> fold::deviation_of(m, p).number(),
{
    let actual = fold::actual_throughput(fold::cycles_per_op(m));
    let expected = fold::expected_throughput(m, p);
    lemma_over_on_ladder(actual.minus(expected), expected);
}

/// Without a temperature, or without a reference to compare it with, nothing is
/// corrected: the deviation stays what it was, but for the sign of a zero.
pub proof fn lemma_no_thermal_data(m: RawMeasurement, p: HardwareProfile)
    requires
        m.temp_mc is None || p.reference_temp_mc is None,
    ensures
        fold::thermal_adjustment(m, p) == Datum::zero(false),
        fold::normalized_deviation_of(m, p).absolute() == fold::deviation_of(m, p).absolute(),
        fold::normalized_deviation_of(m, p).units() == fold::deviation_of(m, p).units(),
{
    lemma_deviation_on_ladder(m, p);
    ladder::lemma_positive(0);
    if let Datum::Signed { rung, .. } = fold::deviation_of(m, p) {
        ladder::lemma_positive(rung);
        if rung < TOP {
            ladder::lemma_round_exact(rung, 1);
            assert(ladder::mag(rung) * 1 == ladder::mag(rung));
        }
    }
}

/// A slowdown that temperature explains in full is removed: nothing is left of the
/// deviation.
pub proof fn lemma_explained_slowdown_vanishes(m: RawMeasurement, p: HardwareProfile)
    requires
        fold::deviation_of(m, p).finite(),
        fold::thermal_adjustment(m, p) == fold::deviation_of(m, p).negated(),
    ensures
        fold::normalized_deviation_of(m, p) == Datum::zero(false),
{
}

/// The correction never counts heat against a measurement: where temperature explains
/// a slowdown, the corrected deviation is not below the raw one.
pub proof fn lemma_heat_is_excused(m: RawMeasurement, p: HardwareProfile)
    requires
        fold::deviation_of(m, p).finite(),
        fold::thermal_adjustment(m, p).number(),
        !fold::thermal_adjustment(m, p).less(Datum::zero(false)),
    ensures
        fold::normalized_deviation_of(m, p).number(),
        !fold::normalized_deviation_of(m, p).less(fold::deviation_of(m, p)),
{
    ladder::lemma_positive(0);
    order::lemma_plus_raises(fold::deviation_of(m, p), fold::thermal_adjustment(m, p));
}

/// Dividing one by a number of at least one.
proof fn lemma_one_over(t: nat)
    requires
        0 < t < TOP,
    ensures
        Datum::whole(1).over(Datum::Signed { negative: false, rung: t }) == (Datum::Signed {
            negative: false,
            rung: ladder::round(ladder::one() * ladder::one(), ladder::mag(t)),
        }),
        ladder::mag(t) > 0,
{
    lemma_whole(1);
    assert(1 * ladder::one() == ladder::one());
    ladder::lemma_positive(t);
}

/// The confidence at a distance, by its parts: `1 + d` is on rung `t`, one over it
/// on rung `u`, and one less that on rung `v`.
proof fn lemma_confidence(a: nat) -> (r: (nat, nat))
    requires
        a < TOP,
    ensures
        ({
            let (t, u) = r;
            let one = ladder::one();
            &&& t == ladder::round(one + ladder::mag(a), 1)
            &&& 0 < t <= TOP
            &&& t < TOP ==> u == ladder::round(one * one, ladder::mag(t))
            &&& t == TOP ==> u == 0
            &&& ladder::mag(u) <= one
            &&& u <= TOP
            &&& fold::confidence(Datum::Signed { negative: false, rung: a }) == if ladder::mag(u)
                == one {
                Datum::zero(false)
            } else {
                Datum::Signed {
                    negative: false,
                    rung: ladder::round((one - ladder::mag(u)) as nat, 1),
                }.clamped(Datum::zero(false), Datum::whole(1))
            }
        }),
{
    let one = ladder::one();
    let w = lemma_whole(1);
    lemma_pow2_pos(1074);
    assert(1 * one == one);
    ladder::lemma_positive(0);
    ladder::lemma_positive(w);
    let d = Datum::Signed { negative: false, rung: a };
    let t = ladder::round(one + ladder::mag(a), 1);
    ladder::lemma_rounds_to_nearest(one + ladder::mag(a), 1);
    assert(ladder::mag(w) * 1 == one);
    ladder::lemma_round_at_least(w, one + ladder::mag(a), 1);
    let sum = Datum::Signed { negative: false, rung: t };
    assert(Datum::whole(1).plus(d) == sum);
    let u = if t < TOP {
        ladder::round(one * one, ladder::mag(t))
    } else {
        0
    };
    if t < TOP {
        lemma_one_over(t);
        ladder::lemma_rounds_to_nearest(one * one, ladder::mag(t));
        if w < t {
            ladder::lemma_mag_increasing(w, t);
        }
        assert(one * one <= ladder::mag(w) * ladder::mag(t)) by (nonlinear_arith)
            requires
                ladder::mag(w) == one,
                ladder::mag(t) >= one,
        ;
        ladder::lemma_round_at_most(w, one * one, ladder::mag(t));
        if u < w {
            ladder::lemma_mag_increasing(u, w);
        }
    }
    let inverse = Datum::Signed { negative: false, rung: u };
    assert(Datum::whole(1).over(sum) == inverse);
    assert(u < TOP);
    (t, u)
}

/// Up to four standard deviations from the mean, a measurement is normal, whatever
/// the exponential is.
pub proof fn lemma_within_four_is_normal(distance: Datum, tail: Datum)
    requires
        distance == distance.absolute(),
        !Datum::whole(4).less(distance),
    ensures
        !fold::anomalous(fold::anomaly_score(distance, tail), fold::confidence(distance)),
{
    let one = ladder::one();
    lemma_pow2_pos(1074);
    lemma_four_fifths();
    if let Datum::Signed { rung: a, .. } = distance {
        let four = lemma_whole(4);
        let five = lemma_whole(5);
        let w = lemma_whole(1);
        assert(1 * one == one);
        ladder::lemma_positive(0);
        if a >= TOP {
            ladder::lemma_mag_increasing(four, a);
        }
        let (t, u) = lemma_confidence(a);
        let n = one + ladder::mag(a);
        assert(distance.units() == ladder::mag(a));
        assert(Datum::whole(4).units() == 4 * one);
        assert(ladder::mag(five) * 1 == 5 * one);
        ladder::lemma_round_at_most(five, n, 1);
        if t < five {
            ladder::lemma_mag_increasing(t, five);
        }
        assert(ladder::mag(t) <= 5 * one);
        // One over it is at least a fifth, and one less that at most four fifths.
        ladder::lemma_positive(t);
        assert(one * ladder::mag(t) <= (one * one) * 5) by (nonlinear_arith)
            requires
                ladder::mag(t) <= 5 * one,
                one > 0,
        ;
        ladder::lemma_round_monotone(one, 5, one * one, ladder::mag(t));
        let fifth = ladder::round(one, 5);
        if fifth < u {
            ladder::lemma_mag_increasing(fifth, u);
        }
        let rest = (one - ladder::mag(u)) as nat;
        let most = (one - ladder::mag(fifth)) as nat;
        ladder::lemma_round_monotone(rest, 1, most, 1);
        let v = ladder::round(rest, 1);
        let bound = ladder::round(8 * one, 10);
        ladder::lemma_rounds_to_nearest(rest, 1);
        if v < bound {
            ladder::lemma_mag_increasing(v, bound);
        }
        ladder::lemma_positive(bound);
        ladder::lemma_positive(v);
        // Clamping does not raise it above four fifths.
        ladder::lemma_positive(w);
    }
}

/// The doubles nearest to a fifth and to four fifths; one less the first rounds to
/// the second.
proof fn lemma_four_fifths()
    ensures
        ladder::round(ladder::one(), 5) == 0x3FC9_9999_9999_999A,
        ladder::round(8 * ladder::one(), 10) == 0x3FE9_9999_9999_999A,
        ladder::mag(0x3FC9_9999_9999_999A) < ladder::one(),
        ladder::round(
            (ladder::one() - ladder::mag(0x3FC9_9999_9999_999A)) as nat,
            1,
        ) == 0x3FE9_9999_9999_999A,
{
    let one = ladder::one();
    let p = pow2(1019);
    lemma_pow2_pos(1019);
    lemma2_to64();
    lemma_pow2_adds(23, 32);
    lemma_pow2_adds(55, 1019);
    lemma_pow2_adds(2, 1019);
    assert(one == 0x80_0000_0000_0000 * p);
    assert(pow2(1021) == 4 * p);
    let fifth: nat = 0x3FC9_9999_9999_999A;
    assert(ladder::mag(fifth) == 0x19_9999_9999_999A * p);
    assert(ladder::mag((fifth - 1) as nat) == 0x19_9999_9999_9999 * p);
    assert(ladder::mag(fifth + 1) == 0x19_9999_9999_999B * p);
    ladder::lemma_round(fifth, one, 5);
    let bound: nat = 0x3FE9_9999_9999_999A;
    assert(ladder::mag(bound) == 0x19_9999_9999_999A * pow2(1021));
    assert(ladder::mag((bound - 1) as nat) == 0x19_9999_9999_9999 * pow2(1021));
    assert(ladder::mag(bound + 1) == 0x19_9999_9999_999B * pow2(1021));
    ladder::lemma_round(bound, 8 * one, 10);
    ladder::lemma_round(bound, (one - ladder::mag(fifth)) as nat, 1);
}

/// The double nearest to 0.95 lies below 61/64, and the one nearest to 0.8 below
/// 103/128.
proof fn lemma_thresholds() -> (r: (nat, nat))
    ensures
        ({
            let (high, sure) = r;
            &&& high < TOP && sure < TOP
            &&& ladder::mag(high) == 61 * pow2(1068)
            &&& ladder::mag(sure) == 103 * pow2(1067)
            &&& Datum::ratio(95, 100) matches Datum::Signed { negative, rung } && !negative && rung
                <= high
            &&& Datum::ratio(8, 10) matches Datum::Signed { negative, rung } && !negative && rung
                <= sure
        }),
{
    let high = ladder::lemma_on_ladder(61, 1068);
    let sure = ladder::lemma_on_ladder(103, 1067);
    let one = ladder::one();
    lemma2_to64();
    lemma_pow2_adds(6, 1068);
    lemma_pow2_adds(7, 1067);
    ladder::lemma_round_at_most(high, 95 * one, 100);
    ladder::lemma_round_at_most(sure, 8 * one, 10);
    (high, sure)
}

/// From 4.25 on the confidence is above its threshold.
proof fn lemma_confident(distance: Datum)
    requires
        distance matches Datum::Signed { negative, rung } && !negative && rung <= TOP,
        distance.units() >= 17 * pow2(1072),
    ensures
        Datum::ratio(8, 10).less(fold::confidence(distance)),
{
    let one = ladder::one();
    let (_, sure) = lemma_thresholds();
    let w = lemma_whole(1);
    lemma2_to64();
    lemma_pow2_pos(1067);
    lemma_pow2_adds(2, 1072);
    lemma_pow2_adds(7, 1067);
    lemma_pow2_adds(5, 1067);
    lemma_pow2_adds(4, 1067);
    assert(1 * one == one);
    ladder::lemma_positive(0);
    ladder::lemma_positive(w);
    let near = ladder::round(8 * one, 10);
    ladder::lemma_rounds_to_nearest(8 * one, 10);
    if near < sure {
        ladder::lemma_mag_increasing(near, sure);
    }
    ladder::lemma_positive(near);
    if let Datum::Signed { rung: a, .. } = distance {
        if a < TOP {
            let (t, u) = lemma_confidence(a);
            // 1 + d is at least 5.25 and its inverse at most 25/128.
            let t_low = ladder::lemma_on_ladder(21, 1072);
            let u_high = ladder::lemma_on_ladder(25, 1067);
            ladder::lemma_round_at_least(t_low, one + ladder::mag(a), 1);
            if t_low < t {
                ladder::lemma_mag_increasing(t_low, t);
            }
            if t < TOP {
                assert(one * one <= ladder::mag(u_high) * ladder::mag(t)) by (nonlinear_arith)
                    requires
                        one == 128 * pow2(1067),
                        ladder::mag(u_high) == 25 * pow2(1067),
                        ladder::mag(t) >= 21 * (32 * pow2(1067)),
                {
                    assert((25 * pow2(1067)) * ladder::mag(t) >= (25 * pow2(1067)) * (21 * (32
                        * pow2(1067))));
                    assert((25 * pow2(1067)) * (21 * (32 * pow2(1067))) == 16800 * (pow2(1067)
                        * pow2(1067)));
                    assert((128 * pow2(1067)) * (128 * pow2(1067)) == 16384 * (pow2(1067) * pow2(
                        1067,
                    )));
                }
                ladder::lemma_round_at_most(u_high, one * one, ladder::mag(t));
            }
            if u < u_high {
                ladder::lemma_mag_increasing(u, u_high);
            }
            let rest = (one - ladder::mag(u)) as nat;
            assert(rest >= 103 * pow2(1067));
            ladder::lemma_round_at_least(sure, rest, 1);
            let v = ladder::round(rest, 1);
            ladder::lemma_rounds_to_nearest(rest, 1);
            lemma_strictly_below_sure();
            if near < v {
                ladder::lemma_mag_increasing(near, v);
            }
            if near < w {
                ladder::lemma_mag_increasing(near, w);
            }
        } else {
            lemma_strictly_below_sure();
            ladder::lemma_rounds_to_nearest(one, 1);
            ladder::lemma_round_exact(w, 1);
            assert(ladder::mag(w) * 1 == one);
            assert(Datum::whole(1).plus(distance) == Datum::infinity(false));
            assert(Datum::whole(1).over(Datum::infinity(false)) == Datum::zero(false));
            lemma_minus_zero(Datum::whole(1));
            if sure < w {
                ladder::lemma_mag_increasing(sure, w);
            } else if w < sure {
                ladder::lemma_mag_increasing(w, sure);
            }
        }
    }
}

/// The double nearest to 0.8 is not as large as 103/128.
proof fn lemma_strictly_below_sure()
    ensures
        ladder::mag(ladder::round(8 * ladder::one(), 10)) < 103 * pow2(1067),
{
    let between = ladder::lemma_on_ladder(205, 1066);
    lemma2_to64();
    lemma_pow2_pos(1066);
    lemma_pow2_adds(8, 1066);
    lemma_pow2_adds(1, 1066);
    ladder::lemma_round_at_most(between, 8 * ladder::one(), 10);
    ladder::lemma_rounds_to_nearest(8 * ladder::one(), 10);
    if ladder::round(8 * ladder::one(), 10) < between {
        ladder::lemma_mag_increasing(ladder::round(8 * ladder::one(), 10), between);
    }
}

/// The double nearest to 0.95 is not as large as 61/64.
proof fn lemma_strictly_below_high()
    ensures
        ladder::mag(ladder::round(95 * ladder::one(), 100)) < 61 * pow2(1068),
{
    let between = ladder::lemma_on_ladder(1951, 1063);
    lemma2_to64();
    lemma_pow2_pos(1063);
    lemma_pow2_adds(11, 1063);
    lemma_pow2_adds(5, 1063);
    ladder::lemma_round_at_most(between, 95 * ladder::one(), 100);
    ladder::lemma_rounds_to_nearest(95 * ladder::one(), 100);
    if ladder::round(95 * ladder::one(), 100) < between {
        ladder::lemma_mag_increasing(ladder::round(95 * ladder::one(), 100), between);
    }
}

/// More than six standard deviations from the mean, a measurement is anomalous with
/// the full score, whatever the exponential is.
pub proof fn lemma_beyond_six_is_anomalous(distance: Datum, tail: Datum)
    requires
        distance == distance.absolute(),
        distance matches Datum::Signed { rung, .. } && rung <= TOP,
        Datum::whole(6).less(distance),
    ensures
        fold::anomaly_score(distance, tail) == Datum::whole(1),
        fold::anomalous(fold::anomaly_score(distance, tail), fold::confidence(distance)),
{
    let one = ladder::one();
    lemma_whole(6);
    lemma_whole(1);
    lemma2_to64();
    lemma_pow2_pos(1072);
    lemma_pow2_adds(2, 1072);
    lemma_pow2_adds(6, 1068);
    lemma_pow2_pos(1068);
    assert(1 * one == one);
    assert(Datum::whole(6).units() == 6 * one);
    lemma_confident(distance);
    ladder::lemma_positive(0);
    lemma_minus_zero(Datum::whole(1));
    lemma_strictly_below_high();
}

/// A standard score is not a number, or one that a double can be.
pub proof fn lemma_z_score_on_ladder(m: RawMeasurement, p: HardwareProfile)
    ensures
        fold::z_score_of(m, p) is Signed ==> fold::z_score_of(m, p).number(),
{
    let spread = p.spread(m.operation, m.precision);
    let width = if spread.1.equal(Datum::zero(false)) {
        Datum::ratio(1, 100)
    } else {
        spread.1
    };
    lemma_over_on_ladder(fold::normalized_deviation_of(m, p).minus(spread.0), width);
}

/// The pipeline finds a measurement normal that is within four standard deviations.
pub proof fn lemma_fold_within_four<E: Fn(Double) -> Double>(
    m: RawMeasurement,
    p: HardwareProfile,
    exp: E,
    d: Decision,
)
    requires
        fold::folds(m, p, exp, d),
        !Datum::whole(4).less(fold::z_score_of(m, p).absolute()),
    ensures
        d is Normal,
{
    let distance = fold::z_score_of(m, p).absolute();
    let tail = choose|tail: Datum| #[trigger]
        fold::tail_given(exp, distance, tail) && fold::decides(
            d,
            fold::anomaly_score(distance, tail),
            fold::confidence(distance),
        );
    lemma_within_four_is_normal(distance, tail);
}

/// The pipeline flags a measurement that is more than six standard deviations off,
/// with the full score.
pub proof fn lemma_fold_beyond_six<E: Fn(Double) -> Double>(
    m: RawMeasurement,
    p: HardwareProfile,
    exp: E,
    d: Decision,
)
    requires
        fold::folds(m, p, exp, d),
        Datum::whole(6).less(fold::z_score_of(m, p).absolute()),
    ensures
        d is Anomalous,
        d.strength() == Datum::whole(1),
{
    let distance = fold::z_score_of(m, p).absolute();
    let tail = choose|tail: Datum| #[trigger]
        fold::tail_given(exp, distance, tail) && fold::decides(
            d,
            fold::anomaly_score(distance, tail),
            fold::confidence(distance),
        );
    lemma_z_score_on_ladder(m, p);
    lemma_beyond_six_is_anomalous(distance, tail);
}

/// The score of a decision: zero for a normal one, above 0.95 and at most one for an
/// anomalous one.
pub proof fn lemma_fold_score<E: Fn(Double) -> Double>(
    m: RawMeasurement,
    p: HardwareProfile,
    exp: E,
    d: Decision,
)
    requires
        fold::folds(m, p, exp, d),
    ensures
        d is Normal ==> d.strength() == Datum::zero(false),
        d is Anomalous ==> Datum::ratio(95, 100).less(d.strength()) && !Datum::whole(1).less(
            d.strength(),
        ),
{
    let distance = fold::z_score_of(m, p).absolute();
    let tail = choose|tail: Datum| #[trigger]
        fold::tail_given(exp, distance, tail) && fold::decides(
            d,
            fold::anomaly_score(distance, tail),
            fold::confidence(distance),
        );
    lemma_scores_in_range(distance, tail);
}

/// Zero times a finite number, and zero over a number other than zero, is zero.
proof fn lemma_zero_products(x: Datum, negative: bool)
    requires
        x is Signed,
    ensures
        x.finite() ==> x.times(Datum::zero(negative)).absolute() == Datum::zero(false),
        !x.equal(Datum::zero(false)) ==> Datum::zero(negative).over(x).absolute() == Datum::zero(
            false,
        ),
{
    lemma_pow2_pos(1074);
    ladder::lemma_positive(0);
    if let Datum::Signed { rung, .. } = x {
        ladder::lemma_positive(rung);
        assert(ladder::mag(rung) * 0 == 0) by (nonlinear_arith);
        assert(0 * ladder::one() == 0);
        ladder::lemma_round_exact(0, ladder::one());
        if rung != 0 {
            assert(0 * ladder::mag(rung) == 0);
            ladder::lemma_round_exact(0, ladder::mag(rung));
        }
        assert(0 * ladder::one() == 0);
    }
}

/// A measurement that runs exactly at its baseline is normal, and its score is zero,
/// if the calibrated mean is zero and temperature explains nothing.
pub proof fn lemma_at_baseline_is_normal(m: RawMeasurement, p: HardwareProfile, tail: Datum)
    requires
        fold::cycles_per_op(m) == p.baseline(m.operation, m.precision),
        Datum::zero(false).less(p.baseline(m.operation, m.precision)),
        fold::expected_throughput(m, p).finite(),
        fold::thermal_adjustment(m, p).equal(Datum::zero(false)),
        p.spread(m.operation, m.precision).0.equal(Datum::zero(false)),
        p.spread(m.operation, m.precision).1 is Signed,
    ensures
        fold::anomaly_score(fold::z_score_of(m, p).absolute(), tail) == Datum::zero(false),
        !fold::anomalous(
            fold::anomaly_score(fold::z_score_of(m, p).absolute(), tail),
            fold::confidence(fold::z_score_of(m, p).absolute()),
        ),
{
    let one = ladder::one();
    let zero = Datum::zero(false);
    let e = fold::expected_throughput(m, p);
    let w = lemma_whole(1);
    lemma_whole(2);
    lemma_whole(6);
    assert(1 * one == one);
    lemma_pow2_pos(1074);
    ladder::lemma_positive(0);
    ladder::lemma_positive(w);
    assert(fold::actual_throughput(fold::cycles_per_op(m)) == e);
    assert(e.minus(e) == zero);
    lemma_zero_products(e, false);
    assert(fold::deviation_of(m, p) == zero);
    let adjustment = fold::thermal_adjustment(m, p);
    assert(adjustment == Datum::zero(true) || adjustment == zero) by {
        lemma_zero_is_zero(adjustment);
    }
    assert(fold::normalized_deviation_of(m, p) == zero);
    let spread = p.spread(m.operation, m.precision);
    lemma_zero_is_zero(spread.0);
    let width = if spread.1.equal(zero) {
        Datum::ratio(1, 100)
    } else {
        spread.1
    };
    assert(width is Signed && !width.equal(zero)) by {
        if spread.1.equal(zero) {
            let small = ladder::lemma_on_ladder(1, 1066);
            lemma2_to64();
            lemma_pow2_pos(1066);
            lemma_pow2_adds(8, 1066);
            ladder::lemma_round_at_least(small, 1 * one, 100);
            ladder::lemma_positive(small);
            ladder::lemma_positive(ladder::round(1 * one, 100));
        }
    }
    lemma_zero_products(width, false);
    let distance = fold::z_score_of(m, p).absolute();
    assert(distance == zero);
    // At distance zero the survival probability is one.
    assert(distance.times(Datum::ratio(4775, 10000)) == zero) by {
        let slope = ladder::round(4775 * one, 10000);
        ladder::lemma_round_at_most(w, 4775 * one, 10000);
        assert(ladder::mag(0) * ladder::mag(slope) == 0) by (nonlinear_arith)
            requires
                ladder::mag(0) == 0,
        ;
        assert(0 * one == 0);
        ladder::lemma_round_exact(0, one);
    }
    lemma_minus_zero(Datum::whole(1));
    assert(fold::survival(distance, tail) == Datum::whole(1));
    assert(Datum::whole(1).minus(Datum::whole(1)) == zero);
    lemma_within_four_is_normal(distance, tail);
}

/// A number equal to zero is one of the two zeros.
proof fn lemma_zero_is_zero(x: Datum)
    requires
        x.equal(Datum::zero(false)),
    ensures
        x == Datum::zero(false) || x == Datum::zero(true),
{
    ladder::lemma_positive(0);
    if let Datum::Signed { rung, .. } = x {
        ladder::lemma_positive(rung);
    }
}

/// A whole number is on the ladder after rounding, and not below a magnitude of the
/// ladder that it is not below itself.
pub proof fn lemma_whole_rounded(c: nat, low: nat) -> (rung: nat)
    requires
        c <= u64::MAX,
        low < TOP,
        ladder::mag(low) <= c * ladder::one(),
    ensures
        rung < TOP,
        Datum::whole(c as int) == (Datum::Signed { negative: false, rung }),
        ladder::mag(rung) >= ladder::mag(low),
        ladder::mag(rung) <= pow2(64) * ladder::one(),
{
    let one = ladder::one();
    let rung = ladder::round(c * one, 1);
    let top = ladder::lemma_on_ladder(1, 1138);
    lemma2_to64();
    lemma_pow2_pos(1074);
    lemma_pow2_adds(64, 1074);
    assert(c * one <= pow2(64) * one) by (nonlinear_arith)
        requires
            c <= pow2(64),
            one > 0,
    ;
    ladder::lemma_round_at_least(low, c * one, 1);
    ladder::lemma_round_at_most(top, c * one, 1);
    if low < rung {
        ladder::lemma_mag_increasing(low, rung);
    }
    if rung < top {
        ladder::lemma_mag_increasing(rung, top);
    }
    rung
}

/// A magnitude of the ladder times a power of two.
proof fn lemma_shifted_rung(rung: nat, k: nat) -> (r: nat)
    requires
        rung < TOP,
        ladder::exponent(rung) + k <= 2044,
    ensures
        r < TOP,
        ladder::mag(r) == pow2(k) * ladder::mag(rung),
{
    let e = ladder::exponent(rung);
    let s = ladder::significand(rung);
    lemma_pow2_adds(e, k);
    assert(s * (pow2(e) * pow2(k)) == pow2(k) * (s * pow2(e))) by (nonlinear_arith);
    ladder::lemma_on_ladder(s, e + k)
}

/// The double nearest to a half lies below one.
proof fn lemma_half(w: nat)
    requires
        w <= TOP,
        ladder::mag(w) == ladder::one(),
    ensures
        Datum::ratio(1, 2).less(Datum::Signed { negative: false, rung: w }),
        Datum::ratio(1, 2) matches Datum::Signed { negative, rung } && !negative && ladder::mag(
            rung,
        ) < ladder::one(),
{
    let one = ladder::one();
    let half = ladder::lemma_on_ladder(1, 1073);
    lemma_pow2_pos(1073);
    lemma_pow2_unfold(1074);
    assert(1 * one == one && 1 * pow2(1073) == pow2(1073));
    ladder::lemma_round_at_most(half, 1 * one, 2);
    ladder::lemma_rounds_to_nearest(1 * one, 2);
    let rung = ladder::round(1 * one, 2);
    if rung < half {
        ladder::lemma_mag_increasing(rung, half);
    }
}

/// The cycles of a thousand operations that take ten times the baseline.
pub open spec fn tenfold_cycles(baseline: Datum) -> nat {
    baseline.times(Datum::whole(10000)).truncated()
}

/// A tenfold slowdown of a thousand operations is more than half off the baseline,
/// if there is a baseline and the cycles are within the range of `u64`.
pub proof fn lemma_tenfold_is_far_off(m: RawMeasurement, p: HardwareProfile)
    requires
        m.op_count == 1000,
        m.cycles == tenfold_cycles(p.baseline(m.operation, m.precision)),
        p.baseline(m.operation, m.precision).finite(),
        Datum::zero(false).less(p.baseline(m.operation, m.precision)),
        p.baseline(m.operation, m.precision).times(Datum::whole(10000)).units() <= u64::MAX
            * ladder::one(),
    ensures
        detector::far_off(m, p),
{
    let one = ladder::one();
    let baseline = p.baseline(m.operation, m.precision);
    lemma_pow2_pos(1074);
    lemma2_to64();
    ladder::lemma_positive(0);
    let w = lemma_whole(1);
    let factor = lemma_whole(10000);
    assert(1 * one == one);
    lemma_half(w);
    if let Datum::Signed { negative, rung: b } = baseline {
        ladder::lemma_positive(b);
        assert(!negative && b > 0);
        let size = ladder::mag(b);
        // Ten thousand times the baseline, rounded and cut.
        let product = ladder::round(size * ladder::mag(factor), one);
        let x = ladder::mag(product);
        assert(baseline.times(Datum::whole(10000)) == (Datum::Signed {
            negative: false,
            rung: product,
        }));
        let c = x / one;
        assert(c * one <= x && x < c * one + one) by (nonlinear_arith)
            requires
                c == x / one,
                one > 0,
        ;
        assert(c <= u64::MAX) by (nonlinear_arith)
            requires
                c * one <= x,
                x <= u64::MAX * one,
                one > 0,
        ;
        assert(m.cycles == c);
        lemma_small_exponent(b, product);
        if x < one {
            assert(c == 0) by (nonlinear_arith)
                requires
                    c * one <= x,
                    x < one,
                    one > 0,
            ;
            lemma_zero_cycles_far_off(m, p, w, b);
        } else {
            lemma_many_cycles_far_off(m, p, b, x, c);
        }
    }
}

/// Ten thousand times a baseline that stays within 2^64 leaves room above its
/// exponent, and is at least 2^13 times the baseline.
proof fn lemma_small_exponent(b: nat, product: nat)
    requires
        0 < b < TOP,
        product == ladder::round(
            ladder::mag(b) * (10000 * ladder::one()),
            ladder::one(),
        ),
        ladder::mag(product) <= u64::MAX * ladder::one(),
    ensures
        ladder::exponent(b) + 13 <= 2044,
        ladder::mag(product) >= 8192 * ladder::mag(b),
{
    let one = ladder::one();
    let size = ladder::mag(b);
    let e = ladder::exponent(b);
    lemma_pow2_pos(1074);
    lemma2_to64();
    let n = size * (10000 * one);
    ladder::lemma_rounds_to_nearest(n, one);
    assert(size * one <= n) by (nonlinear_arith)
        requires
            n == size * (10000 * one),
            one > 0,
    ;
    ladder::lemma_round_at_least(b, n, one);
    if b < product {
        ladder::lemma_mag_increasing(b, product);
    }
    if e + 13 > 2044 {
        lemma_pow2_adds(64, 1074);
        lemma_pow2_strictly_increases(1138, e);
        assert(size >= pow2(e)) by (nonlinear_arith)
            requires
                size == ladder::significand(b) * pow2(e),
                ladder::significand(b) >= 1,
        ;
        assert(u64::MAX * one < pow2(64) * one) by (nonlinear_arith)
            requires
                u64::MAX < pow2(64),
                one > 0,
        ;
    }
    let low = lemma_shifted_rung(b, 13);
    assert(ladder::mag(low) * one <= n) by (nonlinear_arith)
        requires
            n == size * (10000 * one),
            ladder::mag(low) == 8192 * size,
            one > 0,
    ;
    ladder::lemma_round_at_least(low, n, one);
    if low < product {
        ladder::lemma_mag_increasing(low, product);
    }
}

/// No cycles at all are as far off the baseline as the baseline itself.
proof fn lemma_zero_cycles_far_off(m: RawMeasurement, p: HardwareProfile, w: nat, b: nat)
    requires
        m.op_count == 1000,
        m.cycles == 0,
        0 < b < TOP,
        p.baseline(m.operation, m.precision) == (Datum::Signed { negative: false, rung: b }),
        w < TOP,
        ladder::mag(w) == ladder::one(),
        Datum::whole(1) == (Datum::Signed { negative: false, rung: w }),
    ensures
        detector::far_off(m, p),
{
    let one = ladder::one();
    let size = ladder::mag(b);
    lemma_pow2_pos(1074);
    ladder::lemma_positive(0);
    ladder::lemma_positive(b);
    lemma_whole(0);
    let thousand = lemma_whole(1000);
    lemma_half(w);
    assert(0 * one == 0);
    ladder::lemma_positive(thousand);
    assert(0 * ladder::mag(thousand) == 0);
    ladder::lemma_round_exact(0, ladder::mag(thousand));
    let baseline = p.baseline(m.operation, m.precision);
    let actual = types::observed_cycles(m, baseline);
    assert(actual == Datum::zero(false));
    ladder::lemma_round_exact(b, 1);
    assert(size * 1 == size);
    assert(actual.minus(baseline).absolute() == baseline);
    assert(size * one == ladder::mag(w) * size) by (nonlinear_arith)
        requires
            ladder::mag(w) == one,
    ;
    ladder::lemma_round_exact(w, size);
    assert(detector::raw_deviation(m, p) == Datum::whole(1));
}

/// Cycles of at least half of 8192 times the baseline are far off it.
proof fn lemma_many_cycles_far_off(m: RawMeasurement, p: HardwareProfile, b: nat, x: nat, c: nat)
    requires
        m.op_count == 1000,
        m.cycles == c,
        0 < b < TOP,
        ladder::exponent(b) + 13 <= 2044,
        p.baseline(m.operation, m.precision) == (Datum::Signed { negative: false, rung: b }),
        x >= ladder::one(),
        x >= 8192 * ladder::mag(b),
        c * ladder::one() <= x < c * ladder::one() + ladder::one(),
    ensures
        detector::far_off(m, p),
{
    let one = ladder::one();
    let size = ladder::mag(b);
    let baseline = p.baseline(m.operation, m.precision);
    lemma_pow2_pos(1074);
    lemma2_to64();
    ladder::lemma_positive(0);
    ladder::lemma_positive(b);
    let w = lemma_whole(1);
    let two = lemma_whole(2);
    let thousand = lemma_whole(1000);
    assert(1 * one == one);
    lemma_half(w);
    assert(c >= 1) by (nonlinear_arith)
        requires
            x >= one,
            x < c * one + one,
            one > 0,
    ;
    assert(2 * (c * one) >= x) by (nonlinear_arith)
        requires
            c >= 1,
            x < c * one + one,
            one > 0,
    ;
    // The cycles as a double are at least 4096 times the baseline, ...
    let r4096 = lemma_shifted_rung(b, 12);
    let cycles = lemma_whole_rounded(c, r4096);
    let big = ladder::mag(cycles);
    // ... per operation at least four times, ...
    let r4 = lemma_shifted_rung(b, 2);
    let d = ladder::mag(thousand);
    assert(ladder::mag(r4) * d <= big * one) by (nonlinear_arith)
        requires
            ladder::mag(r4) == 4 * size,
            d == 1000 * one,
            big >= 4096 * size,
            one > 0,
    {
        assert((4 * size) * (1000 * one) == (4000 * size) * one);
        assert((4000 * size) * one <= big * one);
    }
    ladder::lemma_positive(thousand);
    ladder::lemma_round_at_least(r4, big * one, d);
    let y = ladder::round(big * one, d);
    assert(big * one <= big * d) by (nonlinear_arith)
        requires
            d == 1000 * one,
            one > 0,
    ;
    ladder::lemma_round_at_most(cycles, big * one, d);
    if r4 < y {
        ladder::lemma_mag_increasing(r4, y);
    }
    let actual = types::observed_cycles(m, baseline);
    assert(actual == (Datum::Signed { negative: false, rung: y }));
    // ... and off the baseline by at least twice of it.
    let r2 = lemma_shifted_rung(b, 1);
    let gap = (ladder::mag(y) - size) as nat;
    assert(actual.units() + baseline.negated().units() == gap);
    ladder::lemma_round_at_least(r2, gap, 1);
    ladder::lemma_rounds_to_nearest(gap, 1);
    let off = ladder::round(gap, 1);
    if r2 < off {
        ladder::lemma_mag_increasing(r2, off);
    }
    assert(actual.minus(baseline).absolute() == (Datum::Signed { negative: false, rung: off }));
    if off < TOP {
        assert(ladder::mag(two) * size <= ladder::mag(off) * one) by (nonlinear_arith)
            requires
                ladder::mag(two) == 2 * one,
                ladder::mag(off) >= 2 * size,
                one > 0,
        {
            assert((2 * one) * size == (2 * size) * one);
            assert((2 * size) * one <= ladder::mag(off) * one);
        }
        ladder::lemma_round_at_least(two, ladder::mag(off) * one, size);
        ladder::lemma_rounds_to_nearest(ladder::mag(off) * one, size);
        let r = ladder::round(ladder::mag(off) * one, size);
        if two < r {
            ladder::lemma_mag_increasing(two, r);
        }
    } else {
        ladder::lemma_mag_increasing(w, TOP as nat);
    }
}

/// The double nearest to the square root of two.
pub proof fn lemma_root_two()
    ensures
        Datum::whole(2).root() == (Datum::Signed {
            negative: false,
            rung: 0x3FF6_A09E_667F_3BCD,
        }),
        ladder::one() <= ladder::mag(0x3FF6_A09E_667F_3BCD) <= 2 * ladder::one(),
{
    let one = ladder::one();
    let two = lemma_whole(2);
    let rung: nat = 0x3FF6_A09E_667F_3BCD;
    let p = pow2(1022);
    let n = ladder::mag(two) * one;
    lemma2_to64();
    lemma_pow2_pos(1022);
    lemma_pow2_adds(20, 32);
    lemma_pow2_adds(52, 1022);
    assert(one == 0x10_0000_0000_0000 * p);
    assert(ladder::mag(rung) == 0x16_A09E_667F_3BCD * p);
    assert(ladder::mag((rung - 1) as nat) == 0x16_A09E_667F_3BCC * p);
    assert(ladder::mag(rung + 1) == 0x16_A09E_667F_3BCE * p);
    let below = ladder::mag((rung - 1) as nat) + ladder::mag(rung);
    let above = ladder::mag(rung) + ladder::mag(rung + 1);
    assert(below * below < 4 * n && 4 * n < above * above) by (nonlinear_arith)
        requires
            p > 0,
            one == 0x10_0000_0000_0000 * p,
            n == (2 * one) * one,
            below == 0x2D_413C_CCFE_7799 * p,
            above == 0x2D_413C_CCFE_779B * p,
    {
        let g = p * p;
        assert(g > 0);
        assert((0x2D_413C_CCFE_7799 * p) * (0x2D_413C_CCFE_7799 * p) == (0x2D_413C_CCFE_7799int
            * 0x2D_413C_CCFE_7799int) * g);
        assert((0x2D_413C_CCFE_779B * p) * (0x2D_413C_CCFE_779B * p) == (0x2D_413C_CCFE_779Bint
            * 0x2D_413C_CCFE_779Bint) * g);
        assert(4 * ((2 * (0x10_0000_0000_0000 * p)) * (0x10_0000_0000_0000 * p)) == (8
            * 0x10_0000_0000_0000int * 0x10_0000_0000_0000int) * g);
    }
    ladder::lemma_root(rung, n);
}

/// The divisor of the tail: positive and finite.
proof fn lemma_tail_divisor(distance: Datum)
    requires
        distance.number(),
        fold::in_tail(distance),
    ensures
        distance.times(Datum::whole(2).root()).finite(),
        distance.times(Datum::whole(2).root()).units() > 0,
        distance.times(Datum::whole(2).root()).times(Datum::whole(2).root()).finite(),
        distance.times(Datum::whole(2).root()).times(Datum::whole(2).root()).units() > 0,
{
    let one = ladder::one();
    let r: nat = 0x3FF6_A09E_667F_3BCD;
    let root = ladder::mag(r);
    let two = lemma_whole(2);
    let six = lemma_whole(6);
    let twelve = lemma_whole(12);
    let many = lemma_whole(24);
    lemma_pow2_pos(1074);
    lemma_root_two();
    ladder::lemma_positive(0);
    if let Datum::Signed { negative, rung: a } = distance {
        assert(!negative && ladder::mag(a) <= 6 * one);
        if a >= TOP {
            ladder::lemma_mag_increasing(six, a);
        }
        let n = ladder::mag(a) * root;
        assert(ladder::mag(two) * one <= n <= ladder::mag(twelve) * one) by (nonlinear_arith)
            requires
                n == ladder::mag(a) * root,
                2 * one <= ladder::mag(a) <= 6 * one,
                one <= root <= 2 * one,
                ladder::mag(two) == 2 * one,
                ladder::mag(twelve) == 12 * one,
        {
            assert((2 * one) * one <= ladder::mag(a) * one <= ladder::mag(a) * root);
            assert(ladder::mag(a) * root <= (6 * one) * root <= (6 * one) * (2 * one));
            assert((6 * one) * (2 * one) == (12 * one) * one);
        }
        ladder::lemma_round_at_least(two, n, one);
        ladder::lemma_round_at_most(twelve, n, one);
        let b = ladder::round(n, one);
        order::lemma_mag_monotone(two, b);
        order::lemma_mag_monotone(b, twelve);
        let m = ladder::mag(b) * root;
        assert(ladder::mag(two) * one <= m <= ladder::mag(many) * one) by (nonlinear_arith)
            requires
                m == ladder::mag(b) * root,
                2 * one <= ladder::mag(b) <= 12 * one,
                one <= root <= 2 * one,
                ladder::mag(two) == 2 * one,
                ladder::mag(many) == 24 * one,
        {
            assert((2 * one) * one <= ladder::mag(b) * one <= ladder::mag(b) * root);
            assert(ladder::mag(b) * root <= (12 * one) * root <= (12 * one) * (2 * one));
            assert((12 * one) * (2 * one) == (24 * one) * one);
        }
        ladder::lemma_round_at_least(two, m, one);
        ladder::lemma_round_at_most(many, m, one);
        order::lemma_mag_monotone(two, ladder::round(m, one));
    }
}

/// Where the even part of the survival probability ends: from zero to 3/64.
proof fn lemma_joint()
    ensures
        fold::even_survival(Datum::whole(2)).finite(),
        0 <= fold::even_survival(Datum::whole(2)).units() <= 3 * pow2(1068),
{
    let one = ladder::one();
    let w = lemma_whole(1);
    let two = lemma_whole(2);
    lemma2_to64();
    lemma_pow2_pos(1068);
    lemma_pow2_adds(6, 1068);
    lemma_pow2_adds(5, 1068);
    lemma_pow2_adds(1, 1067);
    lemma_pow2_adds(7, 1067);
    assert(1 * one == one);
    ladder::lemma_positive(0);
    // The slope lies between 61/128 and a half.
    let low = ladder::lemma_on_ladder(61, 1067);
    let half = ladder::lemma_on_ladder(1, 1073);
    lemma_pow2_adds(6, 1067);
    ladder::lemma_round_at_least(low, 4775 * one, 10000);
    ladder::lemma_round_at_most(half, 4775 * one, 10000);
    let slope = ladder::round(4775 * one, 10000);
    order::lemma_mag_monotone(low, slope);
    order::lemma_mag_monotone(slope, half);
    // Twice of it, between 61/64 and one.
    let n = ladder::mag(two) * ladder::mag(slope);
    let high = ladder::lemma_on_ladder(61, 1068);
    assert(ladder::mag(high) * one <= n <= ladder::mag(w) * one) by (nonlinear_arith)
        requires
            n == (2 * one) * ladder::mag(slope),
            61 * pow2(1067) <= ladder::mag(slope),
            ladder::mag(slope) <= 64 * pow2(1067),
            ladder::mag(high) == 61 * (2 * pow2(1067)),
            ladder::mag(w) == one,
            one == 128 * pow2(1067),
    {
        assert((2 * one) * (61 * pow2(1067)) == (61 * (2 * pow2(1067))) * one);
        assert((2 * one) * (64 * pow2(1067)) == (128 * pow2(1067)) * one);
        assert((2 * one) * (61 * pow2(1067)) <= (2 * one) * ladder::mag(slope));
        assert((2 * one) * ladder::mag(slope) <= (2 * one) * (64 * pow2(1067)));
    }
    ladder::lemma_round_at_least(high, n, one);
    ladder::lemma_round_at_most(w, n, one);
    let twice = ladder::round(n, one);
    order::lemma_mag_monotone(high, twice);
    order::lemma_mag_monotone(twice, w);
    assert(Datum::whole(2).times(Datum::ratio(4775, 10000)) == (Datum::Signed {
        negative: false,
        rung: twice,
    }));
    // And one less that.
    let rest = (one - ladder::mag(twice)) as nat;
    let small = ladder::lemma_on_ladder(3, 1068);
    ladder::lemma_round_at_most(small, rest, 1);
    order::lemma_mag_monotone(ladder::round(rest, 1), small);
}

/// The survival probability in the tail, for any exponential that is a number: from
/// zero to where the even part ends.
proof fn lemma_survival_in_tail(distance: Datum, tail: Datum)
    requires
        distance.number(),
        fold::in_tail(distance),
        tail.number(),
    ensures
        fold::tail_survival(distance, tail).number(),
        fold::survival(distance, tail).number(),
        0 <= fold::survival(distance, tail).units() <= fold::even_survival(
            Datum::whole(2),
        ).units(),
        fold::survival(distance, tail).units() == if fold::tail_survival(distance, tail).units()
            < 0 {
            0
        } else if fold::tail_survival(distance, tail).units() > fold::even_survival(
            Datum::whole(2),
        ).units() {
            fold::even_survival(Datum::whole(2)).units()
        } else {
            fold::tail_survival(distance, tail).units()
        },
{
    let two = lemma_whole(2);
    lemma_pow2_pos(1074);
    ladder::lemma_positive(0);
    ladder::lemma_positive(two);
    lemma_joint();
    lemma_tail_divisor(distance);
    let divisor = distance.times(Datum::whole(2).root()).times(Datum::whole(2).root());
    lemma_doubled(tail);
    order::lemma_times_monotone(tail, tail, Datum::whole(2));
    order::lemma_over_monotone(
        Datum::whole(2).times(tail),
        Datum::whole(2).times(tail),
        divisor,
        divisor,
    );
}

/// Twice a number, from either side.
proof fn lemma_doubled(x: Datum)
    ensures
        Datum::whole(2).times(x) == x.times(Datum::whole(2)),
{
    let two = lemma_whole(2);
    if let Datum::Signed { rung, .. } = x {
        assert(ladder::mag(two) * ladder::mag(rung) == ladder::mag(rung) * ladder::mag(two))
            by (nonlinear_arith);
    }
}

/// The survival probability does not rise with the distance.
proof fn lemma_survival_falls(near: Datum, far: Datum, near_tail: Datum, far_tail: Datum)
    requires
        near.number(),
        far.number(),
        near_tail.number(),
        far_tail.number(),
        !far.less(near),
        !near_tail.less(far_tail),
    ensures
        fold::survival(near, near_tail).number(),
        fold::survival(far, far_tail).number(),
        fold::survival(far, far_tail).units() <= fold::survival(near, near_tail).units(),
{
    let slope = Datum::ratio(4775, 10000);
    let two = lemma_whole(2);
    lemma_whole(6);
    lemma_whole(1);
    lemma_pow2_pos(1074);
    ladder::lemma_positive(0);
    ladder::lemma_positive(two);
    lemma_joint();
    lemma_slope();
    if !Datum::whole(2).less(near) {
        order::lemma_times_monotone(near, Datum::whole(2), slope);
        order::lemma_minus_monotone(
            near.times(slope),
            Datum::whole(2).times(slope),
            Datum::whole(1),
        );
    }
    if fold::in_tail(near) {
        lemma_survival_in_tail(near, near_tail);
    }
    if fold::in_tail(far) {
        lemma_survival_in_tail(far, far_tail);
    }
    if !Datum::whole(2).less(far) {
        order::lemma_times_monotone(near, far, slope);
        order::lemma_minus_monotone(near.times(slope), far.times(slope), Datum::whole(1));
    } else if fold::in_tail(far) && fold::in_tail(near) {
        let root = Datum::whole(2).root();
        lemma_root_two();
        lemma_tail_divisor(near);
        lemma_tail_divisor(far);
        order::lemma_times_monotone(near, far, root);
        order::lemma_times_monotone(near.times(root), far.times(root), root);
        order::lemma_times_monotone(far_tail, near_tail, Datum::whole(2));
        lemma_doubled(far_tail);
        lemma_doubled(near_tail);
        order::lemma_over_monotone(
            Datum::whole(2).times(far_tail),
            Datum::whole(2).times(near_tail),
            far.times(root).times(root),
            near.times(root).times(root),
        );
    }
}

/// The slope of the even part is a positive number.
proof fn lemma_slope()
    ensures
        Datum::ratio(4775, 10000).finite(),
        Datum::ratio(4775, 10000).units() > 0,
{
    let one = ladder::one();
    let w = lemma_whole(1);
    let low = ladder::lemma_on_ladder(1, 1072);
    lemma2_to64();
    lemma_pow2_pos(1072);
    lemma_pow2_adds(2, 1072);
    assert(1 * one == one);
    ladder::lemma_round_at_least(low, 4775 * one, 10000);
    ladder::lemma_round_at_most(w, 4775 * one, 10000);
    order::lemma_mag_monotone(low, ladder::round(4775 * one, 10000));
}

/// A larger deviation never looks less anomalous: the score does not fall with the
/// distance, if the exponential does not rise with it.
pub proof fn lemma_score_rises(near: Datum, far: Datum, near_tail: Datum, far_tail: Datum)
    requires
        near.number(),
        far.number(),
        near_tail.number(),
        far_tail.number(),
        !far.less(near),
        !near_tail.less(far_tail),
    ensures
        fold::anomaly_score(near, near_tail).number(),
        fold::anomaly_score(far, far_tail).number(),
        !fold::anomaly_score(far, far_tail).less(fold::anomaly_score(near, near_tail)),
{
    lemma_whole(1);
    ladder::lemma_positive(0);
    lemma_survival_falls(near, far, near_tail, far_tail);
    order::lemma_minus_monotone(
        fold::survival(far, far_tail),
        fold::survival(near, near_tail),
        Datum::whole(1),
    );
}

/// The argument of the exponential in the tail: a number, and smaller further out.
pub proof fn lemma_tail_argument(near: Datum, far: Datum)
    requires
        near.number(),
        far.number(),
        fold::in_tail(near),
        fold::in_tail(far),
        !far.less(near),
    ensures
        fold::tail_argument(near).number(),
        fold::tail_argument(far).number(),
        !fold::tail_argument(near).less(fold::tail_argument(far)),
{
    let one = ladder::one();
    let two = lemma_whole(2);
    let six = lemma_whole(6);
    let many = lemma_whole(36);
    lemma_pow2_pos(1074);
    ladder::lemma_positive(0);
    ladder::lemma_positive(two);
    if let (Datum::Signed { negative: s, rung: a }, Datum::Signed { negative: t, rung: b }) = (
        near,
        far,
    ) {
        assert(!s && !t);
        if a >= TOP {
            ladder::lemma_mag_increasing(six, a);
        }
        if b >= TOP {
            ladder::lemma_mag_increasing(six, b);
        }
        let m = ladder::mag(a) * ladder::mag(a);
        let n = ladder::mag(b) * ladder::mag(b);
        assert(m <= n <= ladder::mag(many) * one) by (nonlinear_arith)
            requires
                m == ladder::mag(a) * ladder::mag(a),
                n == ladder::mag(b) * ladder::mag(b),
                ladder::mag(a) <= ladder::mag(b) <= 6 * one,
                ladder::mag(many) == 36 * one,
        {
            assert(ladder::mag(a) * ladder::mag(a) <= ladder::mag(a) * ladder::mag(b));
            assert(ladder::mag(a) * ladder::mag(b) <= ladder::mag(b) * ladder::mag(b));
            assert(ladder::mag(b) * ladder::mag(b) <= (6 * one) * ladder::mag(b));
            assert((6 * one) * ladder::mag(b) <= (6 * one) * (6 * one));
            assert((6 * one) * (6 * one) == (36 * one) * one);
        }
        assert(m * one <= n * one) by (nonlinear_arith)
            requires
                m <= n,
        ;
        ladder::lemma_round_monotone(m, one, n, one);
        ladder::lemma_round_at_most(many, n, one);
        order::lemma_mag_monotone(ladder::round(m, one), ladder::round(n, one));
        order::lemma_over_positive(
            far.negated().times(far),
            near.negated().times(near),
            Datum::whole(2),
        );
    }
}

/// A larger deviation never looks less anomalous, by what stage 4 makes of it: of two
/// scores, the one further out is not below the other, if the exponential is rising.
pub proof fn lemma_scores_by_distance<E: Fn(Double) -> Double>(
    exp: E,
    near: Datum,
    far: Datum,
    near_tail: Datum,
    far_tail: Datum,
)
    requires
        fold::rising(exp),
        near.number(),
        far.number(),
        !far.less(near),
        fold::tail_given(exp, near, near_tail),
        fold::tail_given(exp, far, far_tail),
    ensures
        !fold::anomaly_score(far, far_tail).less(fold::anomaly_score(near, near_tail)),
{
    let zero = Datum::zero(false);
    ladder::lemma_positive(0);
    if fold::in_tail(near) {
        lemma_tail_argument(near, near);
    }
    if fold::in_tail(far) {
        lemma_tail_argument(far, far);
    }
    if fold::in_tail(near) && fold::in_tail(far) {
        lemma_tail_argument(near, far);
        lemma_score_rises(near, far, near_tail, far_tail);
    } else if fold::in_tail(near) {
        lemma_score_rises(near, far, near_tail, near_tail);
    } else if fold::in_tail(far) {
        lemma_score_rises(near, far, far_tail, far_tail);
    } else {
        lemma_score_rises(near, far, zero, zero);
    }
}

/// A survival probability of at most 3/64 makes a score above its threshold.
proof fn lemma_small_survival(negative: bool, s: nat)
    requires
        s < TOP,
        ladder::mag(s) <= 3 * pow2(1068),
        negative ==> s == 0,
    ensures
        Datum::ratio(95, 100).less(
            Datum::whole(1).minus(Datum::Signed { negative, rung: s }).clamped(
                Datum::zero(false),
                Datum::whole(1),
            ),
        ),
{
    let one = ladder::one();
    lemma_whole(1);
    let (high, _) = lemma_thresholds();
    lemma2_to64();
    lemma_pow2_pos(1068);
    lemma_pow2_adds(6, 1068);
    assert(1 * one == one);
    ladder::lemma_positive(0);
    ladder::lemma_positive(s);
    lemma_strictly_below_high();
    let rest = (one - ladder::mag(s)) as nat;
    ladder::lemma_round_at_least(high, rest, 1);
    ladder::lemma_rounds_to_nearest(rest, 1);
    let v = ladder::round(rest, 1);
    if high < v {
        ladder::lemma_mag_increasing(high, v);
    }
    assert(Datum::whole(1).minus(Datum::Signed { negative, rung: s }) == (Datum::Signed {
        negative: false,
        rung: v,
    }));
}

/// From 4.25 standard deviations on, a measurement is anomalous, whatever number the
/// exponential is.
pub proof fn lemma_tail_is_anomalous(distance: Datum, tail: Datum)
    requires
        distance == distance.absolute(),
        distance.number(),
        !distance.less(Datum::ratio(17, 4)),
        tail.number(),
    ensures
        fold::anomalous(fold::anomaly_score(distance, tail), fold::confidence(distance)),
{
    lemma_whole(2);
    lemma2_to64();
    lemma_pow2_pos(1072);
    lemma_pow2_adds(2, 1072);
    ladder::lemma_positive(0);
    let quarter = ladder::lemma_on_ladder(17, 1072);
    ladder::lemma_round_exact(quarter, 4);
    assert(Datum::ratio(17, 4) == (Datum::Signed { negative: false, rung: quarter }));
    assert(distance.units() >= 17 * pow2(1072));
    lemma_confident(distance);
    if Datum::whole(6).less(distance) {
        lemma_beyond_six_is_anomalous(distance, tail);
    } else {
        assert(Datum::whole(2).units() == 2 * ladder::one());
        assert(fold::in_tail(distance));
        lemma_survival_in_tail(distance, tail);
        lemma_joint();
        if let Datum::Signed { negative, rung: s } = fold::survival(distance, tail) {
            ladder::lemma_positive(s);
            lemma_pow2_adds(6, 1068);
            if s >= TOP {
                let w = lemma_whole(1);
                lemma_pow2_pos(1068);
                ladder::lemma_mag_increasing(w, s);
                assert(1 * ladder::one() == pow2(6) * pow2(1068));
            }
            lemma_small_survival(negative, s);
        }
    }
}

/// The confidence, by its parts: it is on the rung of one less the inverse.
proof fn lemma_confidence_rung(a: nat, u: nat) -> (v: nat)
    requires
        a < TOP,
        ladder::mag(u) <= ladder::one(),
        fold::confidence(Datum::Signed { negative: false, rung: a }) == if ladder::mag(u)
            == ladder::one() {
            Datum::zero(false)
        } else {
            Datum::Signed {
                negative: false,
                rung: ladder::round((ladder::one() - ladder::mag(u)) as nat, 1),
            }.clamped(Datum::zero(false), Datum::whole(1))
        },
    ensures
        v == ladder::round((ladder::one() - ladder::mag(u)) as nat, 1),
        fold::confidence(Datum::Signed { negative: false, rung: a }) == (Datum::Signed {
            negative: false,
            rung: v,
        }),
{
    let one = ladder::one();
    let w = lemma_whole(1);
    let rest = (one - ladder::mag(u)) as nat;
    let v = ladder::round(rest, 1);
    assert(1 * one == one);
    ladder::lemma_positive(0);
    if ladder::mag(u) == one {
        assert(0 * 1 == 0);
        ladder::lemma_round_exact(0, 1);
    }
    ladder::lemma_round_at_most(w, rest, 1);
    if v < w {
        ladder::lemma_mag_increasing(v, w);
    }
    v
}

/// At an infinite distance the confidence is one.
proof fn lemma_confidence_at_infinity()
    ensures
        fold::confidence(Datum::infinity(false)) == Datum::whole(1),
{
    let w = lemma_whole(1);
    assert(1 * ladder::one() == ladder::one());
    ladder::lemma_positive(0);
    ladder::lemma_positive(w);
    assert(Datum::whole(1).plus(Datum::infinity(false)) == Datum::infinity(false));
    assert(Datum::whole(1).over(Datum::infinity(false)) == Datum::zero(false));
    lemma_minus_zero(Datum::whole(1));
}

/// The confidence does not fall with the distance.
pub proof fn lemma_confidence_rises(near: Datum, far: Datum)
    requires
        near == near.absolute(),
        far == far.absolute(),
        near matches Datum::Signed { rung, .. } && rung <= TOP,
        far matches Datum::Signed { rung, .. } && rung <= TOP,
        !far.less(near),
    ensures
        !fold::confidence(far).less(fold::confidence(near)),
{
    let one = ladder::one();
    lemma_pow2_pos(1074);
    if let (Datum::Signed { rung: a, .. }, Datum::Signed { rung: b, .. }) = (near, far) {
        if b < a {
            ladder::lemma_mag_increasing(b, a);
        }
        if b == TOP {
            lemma_confidence_at_infinity();
            lemma_scores_in_range(near, near);
        } else {
            let (t, u) = lemma_confidence(a);
            let (x, y) = lemma_confidence(b);
            if a < b {
                ladder::lemma_mag_increasing(a, b);
            }
            ladder::lemma_round_monotone(one + ladder::mag(a), 1, one + ladder::mag(b), 1);
            if t < x {
                ladder::lemma_mag_increasing(t, x);
            }
            ladder::lemma_positive(t);
            ladder::lemma_positive(x);
            if x < TOP {
                assert((one * one) * ladder::mag(t) <= (one * one) * ladder::mag(x))
                    by (nonlinear_arith)
                    requires
                        ladder::mag(t) <= ladder::mag(x),
                ;
                ladder::lemma_round_monotone(
                    one * one,
                    ladder::mag(x),
                    one * one,
                    ladder::mag(t),
                );
            }
            if y < u {
                ladder::lemma_mag_increasing(y, u);
            }
            let v = lemma_confidence_rung(a, u);
            let z = lemma_confidence_rung(b, y);
            ladder::lemma_round_monotone(
                (one - ladder::mag(u)) as nat,
                1,
                (one - ladder::mag(y)) as nat,
                1,
            );
            if v < z {
                ladder::lemma_mag_increasing(v, z);
            }
        }
    }
}

/// For extreme deviations the confidence is one: from 2^54 standard deviations on no
/// double lies between.
pub proof fn lemma_confidence_converges(distance: Datum)
    requires
        distance == distance.absolute(),
        distance matches Datum::Signed { rung, .. } && rung <= TOP,
        distance.units() >= pow2(54) * ladder::one(),
    ensures
        fold::confidence(distance) == Datum::whole(1),
{
    let one = ladder::one();
    if let Datum::Signed { rung: a, .. } = distance {
        if a == TOP {
            lemma_confidence_at_infinity();
        } else {
            lemma2_to64();
            lemma_pow2_pos(1020);
            lemma_pow2_adds(54, 1074);
            lemma_pow2_adds(54, 1020);
            lemma_pow2_adds(1, 1020);
            lemma_pow2_adds(20, 32);
            lemma_pow2_adds(52, 1022);
            lemma_pow2_adds(1020, 1128);
            lemma_pow2_adds(1074, 1074);
            let (t, u) = lemma_confidence(a);
            // The inverse is at most 2^-54, ...
            let t_low = ladder::lemma_on_ladder(1, 1128);
            let u_high = ladder::lemma_on_ladder(1, 1020);
            ladder::lemma_round_at_least(t_low, one + ladder::mag(a), 1);
            ladder::lemma_positive(t);
            if t_low < t {
                ladder::lemma_mag_increasing(t_low, t);
            }
            if t < TOP {
                assert(one * one <= ladder::mag(u_high) * ladder::mag(t)) by (nonlinear_arith)
                    requires
                        one * one == pow2(1020) * pow2(1128),
                        ladder::mag(u_high) == pow2(1020),
                        ladder::mag(t) >= pow2(1128),
                ;
                ladder::lemma_round_at_most(u_high, one * one, ladder::mag(t));
            }
            if u < u_high {
                ladder::lemma_mag_increasing(u, u_high);
            }
            // ... which is half of the step below one.
            let v = lemma_confidence_rung(a, u);
            let w: nat = 0x3FF0_0000_0000_0000;
            assert(ladder::mag(w) == 0x10_0000_0000_0000 * pow2(1022));
            let r = lemma_whole(1);
            assert(1 * one == one);
            if r < w {
                ladder::lemma_mag_increasing(r, w);
            } else if w < r {
                ladder::lemma_mag_increasing(w, r);
            }
            ladder::lemma_step((w - 1) as nat);
            ladder::lemma_step(w);
            assert(ladder::exponent((w - 1) as nat) == 1021);
            ladder::lemma_round(w, (one - ladder::mag(u)) as nat, 1);
        }
    }
}

/// The pipeline flags a measurement that is at least 4.25 standard deviations off, if
/// the exponential that it is given there is a number.
pub proof fn lemma_fold_in_tail<E: Fn(Double) -> Double>(
    m: RawMeasurement,
    p: HardwareProfile,
    exp: E,
    d: Decision,
)
    requires
        fold::folds(m, p, exp, d),
        fold::z_score_of(m, p) is Signed,
        !fold::z_score_of(m, p).absolute().less(Datum::ratio(17, 4)),
        forall|x: Double, y: Double| #[trigger]
            exp.ensures((x,), y) && x@ == fold::tail_argument(fold::z_score_of(m, p).absolute())
                ==> y@ is Signed,
    ensures
        d is Anomalous,
{
    let distance = fold::z_score_of(m, p).absolute();
    let tail = choose|tail: Datum| #[trigger]
        fold::tail_given(exp, distance, tail) && fold::decides(
            d,
            fold::anomaly_score(distance, tail),
            fold::confidence(distance),
        );
    if Datum::whole(6).less(distance) {
        lemma_fold_beyond_six(m, p, exp, d);
    } else {
        let quarter = ladder::lemma_on_ladder(17, 1072);
        lemma_whole(2);
        lemma2_to64();
        lemma_pow2_pos(1072);
        lemma_pow2_adds(2, 1072);
        ladder::lemma_round_exact(quarter, 4);
        assert(Datum::ratio(17, 4).units() == 17 * pow2(1072));
        assert(Datum::whole(2).units() == 2 * ladder::one());
        assert(fold::in_tail(distance));
        lemma_z_score_on_ladder(m, p);
        lemma_tail_is_anomalous(distance, tail);
    }
}

/// A detector does not report a measurement that is at most half off its baseline and
/// within four standard deviations.
pub proof fn lemma_ordinary_is_not_reported<E: Fn(Double) -> Double>(
    m: RawMeasurement,
    p: HardwareProfile,
    exp: E,
    fill: nat,
    stale: bool,
    lamport: u64,
    r: Option<Report>,
)
    requires
        detector::detects(m, p, exp, fill, stale, lamport, r),
        !detector::far_off(m, p),
        !Datum::whole(4).less(fold::z_score_of(m, p).absolute()),
    ensures
        r is None,
{
    if fill >= MINIMUM_FILL {
        let d = choose|d: Decision| #[trigger]
            fold::folds(m, p, exp, d) && r == detector::report_on(m, p, d, stale, lamport);
        lemma_fold_within_four(m, p, exp, d);
    }
}

/// A detector with enough measurements in its window reports one that is more than
/// half off its baseline or more than six standard deviations off.
pub proof fn lemma_extreme_is_reported<E: Fn(Double) -> Double>(
    m: RawMeasurement,
    p: HardwareProfile,
    exp: E,
    fill: nat,
    stale: bool,
    lamport: u64,
    r: Option<Report>,
)
    requires
        detector::detects(m, p, exp, fill, stale, lamport, r),
        fill >= MINIMUM_FILL,
        detector::far_off(m, p) || Datum::whole(6).less(fold::z_score_of(m, p).absolute()),
    ensures
        r is Some,
{
    let d = choose|d: Decision| #[trigger]
        fold::folds(m, p, exp, d) && r == detector::report_on(m, p, d, stale, lamport);
    if !detector::far_off(m, p) {
        lemma_fold_beyond_six(m, p, exp, d);
    }
}

/// The score of a report lies above a half and at most at one.
pub proof fn lemma_report_score<E: Fn(Double) -> Double>(
    m: RawMeasurement,
    p: HardwareProfile,
    exp: E,
    fill: nat,
    stale: bool,
    lamport: u64,
    r: Option<Report>,
)
    requires
        detector::detects(m, p, exp, fill, stale, lamport, r),
    ensures
        r matches Some(a) ==> Datum::ratio(1, 2).less(a.score) && !Datum::whole(1).less(
            a.score,
        ),
{
    if r is Some {
        let one = ladder::one();
        let d = choose|d: Decision| #[trigger]
            fold::folds(m, p, exp, d) && r == detector::report_on(m, p, d, stale, lamport);
        lemma_fold_score(m, p, exp, d);
        let w = lemma_whole(1);
        assert(1 * one == one);
        lemma_half(w);
        ladder::lemma_positive(0);
        // The threshold of the pipeline is not below a half.
        let half = ladder::round(1 * one, 2);
        let high = ladder::round(95 * one, 100);
        assert((1 * one) * 100 <= (95 * one) * 2);
        ladder::lemma_round_monotone(1 * one, 2, 95 * one, 100);
        if half < high {
            ladder::lemma_mag_increasing(half, high);
        }
    }
}

/// The rate of anomalies lies from zero to one.
pub proof fn lemma_rate_in_range(w: Window)
    requires
        w.valid(),
        w.total <= u64::MAX,
    ensures
        detector::anomaly_rate(w) is Signed,
        !detector::anomaly_rate(w).less(Datum::zero(false)),
        !Datum::whole(1).less(detector::anomaly_rate(w)),
{
    let one = ladder::one();
    let unit = lemma_whole(1);
    lemma_pow2_pos(1074);
    assert(1 * one == one);
    ladder::lemma_positive(0);
    if w.total > 0 {
        assert(one <= w.total * one && w.anomalies * one <= w.total * one) by (nonlinear_arith)
            requires
                1 <= w.total,
                w.anomalies <= w.total,
                one > 0,
        ;
        let all = lemma_whole_rounded(w.total, unit);
        let some = lemma_whole_rounded(w.anomalies, 0);
        ladder::lemma_positive(all);
        ladder::lemma_round_monotone(w.anomalies * one, 1, w.total * one, 1);
        if some < all {
            ladder::lemma_mag_increasing(some, all);
        }
        assert(ladder::mag(some) * one <= ladder::mag(unit) * ladder::mag(all))
            by (nonlinear_arith)
            requires
                ladder::mag(some) <= ladder::mag(all),
                ladder::mag(unit) == one,
        ;
        ladder::lemma_round_at_most(unit, ladder::mag(some) * one, ladder::mag(all));
        let r = ladder::round(ladder::mag(some) * one, ladder::mag(all));
        if r < unit {
            ladder::lemma_mag_increasing(r, unit);
        }
    }
}

/// The size of a batch does not matter: as many cycles for as many operations, in
/// proportion, fold alike. Counts are taken up to 2^53, where doubles hold them
/// exactly.
pub proof fn lemma_batch_size_does_not_matter(
    m: RawMeasurement,
    other: RawMeasurement,
    p: HardwareProfile,
)
    requires
        0 < m.op_count <= 2 * BINADE,
        0 < other.op_count <= 2 * BINADE,
        m.cycles <= 2 * BINADE,
        other.cycles <= 2 * BINADE,
        m.cycles * other.op_count == other.cycles * m.op_count,
        m.operation == other.operation,
        m.precision == other.precision,
        m.temp_mc == other.temp_mc,
    ensures
        fold::cycles_per_op(m) == fold::cycles_per_op(other),
        fold::z_score_of(m, p) == fold::z_score_of(other, p),
{
    let one = ladder::one();
    lemma_pow2_pos(1074);
    let a = lemma_whole(m.cycles as nat);
    let b = lemma_whole(m.op_count as nat);
    let c = lemma_whole(other.cycles as nat);
    let d = lemma_whole(other.op_count as nat);
    ladder::lemma_positive(b);
    ladder::lemma_positive(d);
    let (x, y, u, v) = (m.cycles as nat, m.op_count as nat, other.cycles as nat, other.op_count as nat);
    assert((ladder::mag(a) * one) * ladder::mag(d) == (ladder::mag(c) * one) * ladder::mag(b))
        by (nonlinear_arith)
        requires
            ladder::mag(a) == x * one,
            ladder::mag(b) == y * one,
            ladder::mag(c) == u * one,
            ladder::mag(d) == v * one,
            x * v == u * y,
    {
        assert(((x * one) * one) * (v * one) == (x * v) * (one * one * one));
        assert(((u * one) * one) * (y * one) == (u * y) * (one * one * one));
    }
    ladder::lemma_round_equal(
        ladder::mag(a) * one,
        ladder::mag(b),
        ladder::mag(c) * one,
        ladder::mag(d),
    );
}

/// A measurement that costs exactly what was predicted confirms the prediction, if
/// its tolerance is not negative.
pub proof fn lemma_on_target_confirms(
    prediction: PredictedMeasurement,
    m: RawMeasurement,
    p: HardwareProfile,
)
    requires
        types::observed_cycles(m, prediction.expected_cycles_per_op@)
            == prediction.expected_cycles_per_op@,
        prediction.expected_cycles_per_op@.finite(),
        prediction.tolerance(p) is Signed,
        !prediction.tolerance(p).less(Datum::zero(false)),
    ensures
        prediction.met_by(m, p),
{
    let e = prediction.expected_cycles_per_op@;
    ladder::lemma_positive(0);
    assert(e.minus(e) == Datum::zero(false));
    lemma_zero_products(e, false);
}

} // verus!
