//! What scores and confidences mean, in exact numbers.
use crate::double::Datum;
use crate::exact;
use crate::fold;
use crate::ladder;
use crate::laws;
use crate::meaning;
use crate::types::Decision;
use vstd::arithmetic::power2::*;
use vstd::prelude::*;

verus! {

/// Brought into the range from zero to one, a number is no further from one that lies
/// in that range.
proof fn lemma_clamped(x: Datum, y: real, e: real)
    requires
        x.finite(),
        0 as real <= y <= 1 as real,
        exact::size(exact::value(x) - y) <= e,
    ensures
        exact::size(
            exact::value(x.clamped(Datum::zero(false), Datum::whole(1))) - y,
        ) <= e,
{
    exact::lemma_whole_exact(1);
    exact::lemma_units(Datum::zero(false));
    ladder::lemma_positive(0);
    exact::lemma_value_order(x, Datum::zero(false));
    exact::lemma_value_order(Datum::whole(1), x);
}

/// The smallest double and the step of doubles, against each other and against one.
proof fn lemma_small()
    ensures
        exact::speck() > 0 as real,
        exact::speck() <= exact::grain(),
        1000000 as real * exact::grain() <= 1 as real,
        exact::grain() > 0 as real,
        meaning::hair() == 0x1000 as real * exact::grain(),
        4 as real <= exact::limit(),
        16 as real <= exact::ceiling(),
        exact::floor() * exact::floor() <= exact::grain(),
{
    let g = exact::grain();
    let s = exact::speck();
    let f = exact::floor();
    exact::lemma_constants();
    meaning::lemma_hair();
    assert(s <= g && 1000000 as real * g <= 1 as real && f * f <= g) by (nonlinear_arith)
        requires
            s * 0x10_0000_0000_0000 as real <= f * f,
            f <= g,
            f > 0 as real,
            s > 0 as real,
            g > 0 as real,
            g * 0x10_0000_0000_0000 as real == 1 as real,
    {
        assert(g <= 1 as real);
        assert(f * f <= g * g);
        assert(g * g <= g);
    }
}

/// The survival probability near the mean falls evenly, by 0.4775 for each standard
/// deviation, up to rounding.
proof fn lemma_even_survival(distance: Datum)
    requires
        distance.finite(),
        0 as real <= exact::value(distance) <= 2 as real,
    ensures
        fold::even_survival(distance).finite(),
        exact::size(
            exact::value(fold::even_survival(distance)) - (1 as real - exact::value(distance)
                * (4775 as real / 10000 as real)),
        ) <= 12 as real * exact::grain(),
{
    let g = exact::grain();
    let s = exact::speck();
    lemma_small();
    let slope = Datum::ratio(4775, 10000);
    let k = 4775 as real / 10000 as real;
    exact::lemma_ratio_exact(4775, 10000);
    let v = exact::value(slope);
    assert(exact::size(v - k) <= 2 as real * g) by (nonlinear_arith)
        requires
            exact::size(v - k) <= exact::size(k) * g + s,
            k * 10000 as real == 4775 as real,
            s <= g,
            g > 0 as real,
    ;
    let d = exact::value(distance);
    let e = d * v;
    assert(exact::size(e - d * k) <= 4 as real * g && exact::size(e) <= 2 as real)
        by (nonlinear_arith)
        requires
            e == d * v,
            0 as real <= d <= 2 as real,
            exact::size(v - k) <= 2 as real * g,
            k * 10000 as real == 4775 as real,
            1000000 as real * g <= 1 as real,
    {
        assert(e - d * k == d * (v - k));
        assert(exact::size(d * (v - k)) == d * exact::size(v - k));
        assert(d * exact::size(v - k) <= 2 as real * (2 as real * g)) by {
            assert(d * exact::size(v - k) <= 2 as real * exact::size(v - k));
        }
        assert(0 as real <= v && v <= 1 as real);
        assert(d * v <= d * 1 as real);
        assert(d * v >= 0 as real);
    }
    exact::lemma_times_exact(distance, slope);
    let product = distance.times(slope);
    let p = exact::value(product);
    assert(exact::size(p - e) <= 3 as real * g) by (nonlinear_arith)
        requires
            exact::size(p - e) <= exact::size(e) * g + s,
            exact::size(e) <= 2 as real,
            s <= g,
            g > 0 as real,
    ;
    exact::lemma_whole_exact(1);
    exact::lemma_minus_exact(Datum::whole(1), product);
    let r = exact::value(fold::even_survival(distance));
    assert(exact::size(1 as real - p) <= 4 as real);
    assert(exact::size(1 as real - p) * g <= 4 as real * g) by (nonlinear_arith)
        requires
            exact::size(1 as real - p) <= 4 as real,
            g > 0 as real,
    ;
}

/// One less a survival probability, within zero and one.
proof fn lemma_one_less(survival: Datum, y: real, e: real)
    requires
        survival.finite(),
        0 as real <= y <= 1 as real,
        exact::size(exact::value(survival) - y) <= e,
        e <= 1 as real,
    ensures
        exact::size(
            exact::value(
                Datum::whole(1).minus(survival).clamped(Datum::zero(false), Datum::whole(1)),
            ) - (1 as real - y),
        ) <= e + 4 as real * exact::grain(),
{
    let g = exact::grain();
    let s = exact::speck();
    lemma_small();
    exact::lemma_whole_exact(1);
    exact::lemma_minus_exact(Datum::whole(1), survival);
    let v = exact::value(survival);
    let r = exact::value(Datum::whole(1).minus(survival));
    assert(exact::size(1 as real - v) <= 3 as real);
    assert(exact::size(1 as real - v) * g <= 3 as real * g) by (nonlinear_arith)
        requires
            exact::size(1 as real - v) <= 3 as real,
            g > 0 as real,
    ;
    lemma_clamped(Datum::whole(1).minus(survival), 1 as real - y, e + 4 as real * g);
}

/// Up to two standard deviations the score is 0.4775 for each, up to rounding.
pub proof fn lemma_score_near_the_mean(distance: Datum, tail: Datum)
    requires
        distance.finite(),
        0 as real <= exact::value(distance) <= 2 as real,
    ensures
        exact::size(
            exact::value(fold::anomaly_score(distance, tail)) - exact::value(distance) * (
            4775 as real / 10000 as real),
        ) <= meaning::hair(),
{
    let g = exact::grain();
    lemma_small();
    exact::lemma_whole_exact(2);
    exact::lemma_whole_exact(6);
    exact::lemma_value_order(Datum::whole(2), distance);
    exact::lemma_value_order(Datum::whole(6), distance);
    lemma_even_survival(distance);
    let d = exact::value(distance);
    let k = 4775 as real / 10000 as real;
    let y = 1 as real - d * k;
    assert(0 as real <= y <= 1 as real) by (nonlinear_arith)
        requires
            y == 1 as real - d * k,
            0 as real <= d <= 2 as real,
            k * 10000 as real == 4775 as real,
    ;
    lemma_one_less(fold::even_survival(distance), y, 12 as real * g);
}

/// The square of the square root of two, in doubles, is two up to rounding.
proof fn lemma_root_two_squared()
    ensures
        ({
            let r = exact::value(Datum::whole(2).root());
            &&& Datum::whole(2).root().finite()
            &&& r > 0 as real
            &&& 1 as real <= r <= 2 as real
            &&& exact::size(r * r - 2 as real) <= 4 as real * exact::grain()
        }),
{
    laws::lemma_root_two();
    lemma_small();
    let x = Datum::whole(2).root();
    let g = exact::grain();
    let o = ladder::one() as real;
    exact::lemma_constants();
    exact::lemma_units(x);
    lemma_pow2_pos(1074);
    lemma2_to64();
    lemma_pow2_adds(20, 32);
    lemma_pow2_adds(52, 1022);
    lemma_pow2_pos(1022);
    let p = pow2(1022);
    let rung: nat = 0x3FF6_A09E_667F_3BCD;
    assert(ladder::mag(rung) == 0x16_A09E_667F_3BCD * p);
    let u = p as real;
    let w = 0x10_0000_0000_0000 as real;
    let m = 0x16_A09E_667F_3BCD as real;
    assert((0x16_A09E_667F_3BCD * p) as real == m * u) by (nonlinear_arith)
        requires
            u == p as real,
            m == 0x16_A09E_667F_3BCD as real,
    ;
    assert((pow2(52) * p) as real == w * u) by (nonlinear_arith)
        requires
            u == p as real,
            pow2(52) == 0x10_0000_0000_0000,
            w == 0x10_0000_0000_0000 as real,
    ;
    let r = exact::value(x);
    assert(r * w == m) by (nonlinear_arith)
        requires
            r * o == m * u,
            o == w * u,
            u > 0 as real,
    {
        assert((r * w) * u == m * u);
    }
    assert(r == m * g) by (nonlinear_arith)
        requires
            r * w == m,
            g * w == 1 as real,
    {
        assert((r * w) * g == m * g);
        assert((r * w) * g == r * (g * w));
    }
    assert(1 as real <= r <= 2 as real) by (nonlinear_arith)
        requires
            r * w == m,
            w == 0x10_0000_0000_0000 as real,
            m == 0x16_A09E_667F_3BCD as real,
    ;
    assert(exact::size(r * r - 2 as real) <= 4 as real * g) by (nonlinear_arith)
        requires
            r == m * g,
            g * w == 1 as real,
            w == 0x10_0000_0000_0000 as real,
            m == 0x16_A09E_667F_3BCD as real,
            g > 0 as real,
    {
        let gg = g * g;
        assert(r * r == (m * m) * gg);
        assert((w * w) * gg == 1 as real) by {
            assert((w * w) * gg == (g * w) * (g * w));
        }
        assert(2 as real == (2 as real * (w * w)) * gg);
        let big = m * m - 2 as real * (w * w);
        assert(r * r - 2 as real == big * gg);
        assert(exact::size(big) <= 4 as real * w);
        assert(exact::size(big * gg) == exact::size(big) * gg) by {
            assert(gg > 0 as real);
        }
        assert(exact::size(big) * gg <= (4 as real * w) * gg) by {
            assert(gg > 0 as real);
        }
        assert((4 as real * w) * gg == 4 as real * g * (g * w));
    }
}

/// From two to six standard deviations, the survival probability is the exponential over
/// the distance, and 0.045 where that would be more, up to rounding.
pub proof fn lemma_score_in_the_tail(distance: Datum, tail: Datum)
    requires
        distance.finite(),
        exact::value(distance) > 2 as real,
        exact::value(distance) <= 6 as real,
        tail.finite(),
        0 as real <= exact::value(tail) <= exact::ceiling(),
    ensures
        ({
            let chance = exact::value(tail) / exact::value(distance);
            let capped = if chance < 45 as real / 1000 as real {
                chance
            } else {
                45 as real / 1000 as real
            };
            exact::size(
                exact::value(fold::anomaly_score(distance, tail)) - (1 as real - capped),
            ) <= meaning::hair()
        }),
{
    let g = exact::grain();
    let s = exact::speck();
    let c = exact::ceiling();
    lemma_small();
    exact::lemma_constants();
    exact::lemma_whole_exact(1);
    exact::lemma_whole_exact(2);
    exact::lemma_whole_exact(6);
    exact::lemma_value_order(Datum::whole(2), distance);
    exact::lemma_value_order(Datum::whole(6), distance);
    exact::lemma_units(Datum::zero(false));
    ladder::lemma_positive(0);
    let two = Datum::whole(2);
    let root = two.root();
    let d = exact::value(distance);
    let t = exact::value(tail);
    let r = exact::value(root);
    lemma_root_two_squared();
    meaning::lemma_four_times_below_limit();
    // The divisor is twice the distance.
    assert(2 as real <= d * r && d * r <= 12 as real) by (nonlinear_arith)
        requires
            2 as real <= d,
            d <= 6 as real,
            1 as real <= r <= 2 as real,
    ;
    assert(64 as real <= exact::limit()) by {
        lemma2_to64();
        lemma_pow2_strictly_increases(6, 1000);
    }
    exact::lemma_times_exact(distance, root);
    let once = distance.times(root);
    let a = exact::value(once);
    assert(exact::size(a - d * r) <= 13 as real * g) by (nonlinear_arith)
        requires
            exact::size(a - d * r) <= exact::size(d * r) * g + s,
            2 as real <= d * r,
            d * r <= 12 as real,
            s <= g,
            g > 0 as real,
    ;
    assert(1 as real <= a * r && a * r <= 26 as real) by (nonlinear_arith)
        requires
            1 as real <= a,
            a <= 13 as real,
            1 as real <= r <= 2 as real,
    ;
    exact::lemma_times_exact(once, root);
    let divisor = once.times(root);
    let b = exact::value(divisor);
    assert(exact::size(b - 2 as real * d) <= 100 as real * g) by (nonlinear_arith)
        requires
            exact::size(b - a * r) <= exact::size(a * r) * g + s,
            1 as real <= a * r,
            a * r <= 26 as real,
            exact::size(a - d * r) <= 13 as real * g,
            exact::size(r * r - 2 as real) <= 4 as real * g,
            1 as real <= r <= 2 as real,
            2 as real <= d,
            d <= 6 as real,
            s <= g,
            g > 0 as real,
    {
        assert(exact::size(b - a * r) <= 27 as real * g);
        assert(a * r - (d * r) * r == (a - d * r) * r);
        assert(exact::size((a - d * r) * r) == exact::size(a - d * r) * r);
        assert(exact::size(a - d * r) * r <= (13 as real * g) * 2 as real) by {
            assert(exact::size(a - d * r) * r <= exact::size(a - d * r) * 2 as real);
        }
        assert((d * r) * r == d * (r * r));
        assert(d * (r * r) - 2 as real * d == d * (r * r - 2 as real));
        assert(exact::size(d * (r * r - 2 as real)) == d * exact::size(r * r - 2 as real));
        assert(d * exact::size(r * r - 2 as real) <= 6 as real * (4 as real * g)) by {
            assert(d * exact::size(r * r - 2 as real) <= 6 as real * exact::size(
                r * r - 2 as real,
            ));
        }
    }
    // The dividend is twice the exponential.
    assert(c <= c * c) by (nonlinear_arith)
        requires
            c >= 1 as real,
    ;
    assert(exact::value(two) * t == 2 as real * t);
    exact::lemma_times_exact(two, tail);
    let dividend = two.times(tail);
    let n = exact::value(dividend);
    let q = n / b;
    let chance = t / d;
    assert(chance >= 0 as real && chance * d == t && q * b == n && chance <= t) by (nonlinear_arith)
        requires
            chance == t / d,
            q == n / b,
            t >= 0 as real,
            d >= 2 as real,
            b >= 1 as real,
    ;
    let gt = g * t;
    assert(gt >= 0 as real && 1000000 as real * gt <= t && exact::size(2 as real * t) * g == 2 as real
        * gt) by (nonlinear_arith)
        requires
            gt == g * t,
            t >= 0 as real,
            g > 0 as real,
            1000000 as real * g <= 1 as real,
    ;
    assert(exact::size(n - 2 as real * t) <= 2 as real * gt + s);
    let gc = g * chance;
    assert(gc >= 0 as real && 1000000 as real * gc <= chance && gt <= 6 as real * gc)
        by (nonlinear_arith)
        requires
            gc == g * chance,
            gt == g * t,
            chance * d == t,
            d <= 6 as real,
            chance >= 0 as real,
            g > 0 as real,
            1000000 as real * g <= 1 as real,
    {
        assert(chance * d <= chance * 6 as real);
        assert(g * (chance * d) <= g * (chance * 6 as real));
    }
    assert(exact::size(q - chance) <= 120 as real * gc + s) by (nonlinear_arith)
        requires
            q * b == n,
            chance * d == t,
            exact::size(n - 2 as real * t) <= 2 as real * gt + s,
            exact::size(b - 2 as real * d) <= 100 as real * g,
            gt <= 6 as real * gc,
            gc == g * chance,
            b >= 1 as real,
            chance >= 0 as real,
            s > 0 as real,
    {
        // (q - chance) b == (n - 2 t) - chance (b - 2 d)
        let x = q - chance;
        assert(x * b == (n - 2 as real * t) - chance * (b - 2 as real * d)) by {
            assert(x * b == q * b - chance * b);
            assert(chance * (b - 2 as real * d) == chance * b - 2 as real * (chance * d));
        }
        assert(exact::size(chance * (b - 2 as real * d)) == chance * exact::size(
            b - 2 as real * d,
        ));
        assert(chance * exact::size(b - 2 as real * d) <= chance * (100 as real * g));
        assert(chance * (100 as real * g) == 100 as real * gc);
        assert(exact::size(x * b) <= 2 as real * gt + s + 100 as real * gc);
        assert(exact::size(x * b) == exact::size(x) * b);
        assert(exact::size(x) <= exact::size(x) * b) by {
            assert(exact::size(x) >= 0 as real);
        }
    }
    assert(exact::size(q) <= 2 as real * chance + 1 as real);
    exact::lemma_over_exact(dividend, divisor);
    let raw = fold::tail_survival(distance, tail);
    let v = exact::value(raw);
    assert(exact::size(q) * g <= 2 as real * gc + g) by (nonlinear_arith)
        requires
            exact::size(q) <= 2 as real * chance + 1 as real,
            gc == g * chance,
            g > 0 as real,
    ;
    assert(exact::size(v - chance) <= 122 as real * gc + 3 as real * g);
    // No more than where the even part ends.
    lemma_even_survival(two);
    let joint = fold::even_survival(two);
    let j = exact::value(joint);
    let cap = 45 as real / 1000 as real;
    assert(exact::size(j - cap) <= 12 as real * g) by {
        assert(1 as real - 2 as real * (4775 as real / 10000 as real) == cap);
    }
    let kept = fold::survival(distance, tail);
    assert(kept == raw.clamped(Datum::zero(false), joint));
    exact::lemma_value_order(raw, Datum::zero(false));
    exact::lemma_value_order(joint, raw);
    let k = exact::value(kept);
    let capped = if chance < cap {
        chance
    } else {
        cap
    };
    assert(exact::size(k - capped) <= 140 as real * g) by {
        if chance <= 1 as real {
            assert(gc <= g) by (nonlinear_arith)
                requires
                    gc == g * chance,
                    chance <= 1 as real,
                    g > 0 as real,
            ;
        } else {
            assert(v >= 1 as real / 2 as real);
        }
    }
    lemma_one_less(kept, capped, 140 as real * g);
}

/// The confidence is the distance over one more than it, up to rounding.
pub proof fn lemma_confidence_is_the_ratio(distance: Datum)
    requires
        distance.finite(),
        0 as real <= exact::value(distance) <= exact::ceiling(),
    ensures
        ({
            let d = exact::value(distance);
            exact::size(exact::value(fold::confidence(distance)) - d / (1 as real + d))
                <= meaning::hair()
        }),
{
    let g = exact::grain();
    let s = exact::speck();
    lemma_small();
    exact::lemma_constants();
    exact::lemma_whole_exact(1);
    let one = Datum::whole(1);
    let d = exact::value(distance);
    let e = 1 as real + d;
    exact::lemma_plus_exact(one, distance);
    let sum = one.plus(distance);
    let v = exact::value(sum);
    assert(exact::floor() * exact::floor() <= e) by {
        assert(exact::grain() <= 1 as real);
    }
    exact::lemma_near_rounds(v, e);
    exact::lemma_near_inverse(v, e, 2);
    let (i, j) = (1 as real / v, 1 as real / e);
    assert(j * e == 1 as real && j > 0 as real && j <= 1 as real) by (nonlinear_arith)
        requires
            j == 1 as real / e,
            e >= 1 as real,
    ;
    exact::lemma_near_size(i, j, 3);
    exact::lemma_over_exact(one, sum);
    let inverse = one.over(sum);
    let w = exact::value(inverse);
    assert(exact::size(i - j) <= 3 as real * g) by (nonlinear_arith)
        requires
            exact::size(i - j) <= 3 as real * g * exact::size(j),
            j > 0 as real,
            j <= 1 as real,
            g > 0 as real,
    ;
    assert(exact::size(i) * g <= 2 as real * g) by (nonlinear_arith)
        requires
            exact::size(i) <= 2 as real,
            g > 0 as real,
    ;
    assert(exact::size(w - j) <= 6 as real * g);
    lemma_one_less(inverse, j, 6 as real * g);
    assert(d / e == 1 as real - j) by (nonlinear_arith)
        requires
            j * e == 1 as real,
            e == 1 as real + d,
            e >= 1 as real,
    {
        assert((1 as real - j) * e == d);
        assert(d / e * e == d);
    }
}

/// A decision is anomalous if the score is above 0.95 and the confidence above 0.8, and
/// normal if either is below, up to rounding; the score of an anomalous one is the score.
pub proof fn lemma_decision_rule(d: Decision, score: Datum, confidence: Datum)
    requires
        fold::decides(d, score, confidence),
        score is Signed,
        confidence is Signed,
    ensures
        ({
            let (x, y) = (exact::value(score), exact::value(confidence));
            let (high, sure) = (95 as real / 100 as real, 8 as real / 10 as real);
            let h = meaning::hair();
            &&& x > high + h && y > sure + h ==> d is Anomalous
            &&& x < high - h || y < sure - h ==> d is Normal
            &&& d is Anomalous ==> d.strength() == score
            &&& d is Normal ==> exact::value(d.strength()) == 0 as real
        }),
{
    let g = exact::grain();
    let s = exact::speck();
    lemma_small();
    exact::lemma_ratio_exact(95, 100);
    exact::lemma_ratio_exact(8, 10);
    exact::lemma_value_order(Datum::ratio(95, 100), score);
    exact::lemma_value_order(Datum::ratio(8, 10), confidence);
    exact::lemma_units(Datum::zero(false));
    ladder::lemma_positive(0);
    let (high, sure) = (95 as real / 100 as real, 8 as real / 10 as real);
    assert(exact::size(high) * g <= g && exact::size(sure) * g <= g) by (nonlinear_arith)
        requires
            exact::size(high) <= 1 as real,
            exact::size(sure) <= 1 as real,
            g > 0 as real,
    ;
}

/// What the exponential is asked for is minus half of the square of the distance, up to
/// rounding.
pub proof fn lemma_tail_argument_is_half_the_square(distance: Datum)
    requires
        distance.finite(),
        exact::value(distance) > 2 as real,
        exact::value(distance) <= 6 as real,
    ensures
        ({
            let d = exact::value(distance);
            let x = exact::value(fold::tail_argument(distance));
            exact::size(x + d * d / 2 as real) <= meaning::hair()
        }),
{
    let g = exact::grain();
    let s = exact::speck();
    lemma_small();
    exact::lemma_whole_exact(2);
    exact::lemma_negated(distance);
    let d = exact::value(distance);
    let n = distance.negated();
    let e = exact::value(n) * d;
    assert(e == 0 as real - d * d && exact::size(e) <= 36 as real) by (nonlinear_arith)
        requires
            e == (0 as real - d) * d,
            d > 2 as real,
            d <= 6 as real,
    ;
    assert(36 as real <= exact::limit()) by {
        lemma2_to64();
        lemma_pow2_strictly_increases(6, 1000);
    }
    exact::lemma_times_exact(n, distance);
    let p = exact::value(n.times(distance));
    assert(exact::size(e) * g <= 36 as real * g) by (nonlinear_arith)
        requires
            exact::size(e) <= 36 as real,
            g > 0 as real,
    ;
    assert(exact::size(p / 2 as real) <= 20 as real);
    exact::lemma_over_exact(n.times(distance), Datum::whole(2));
    assert(exact::size(p / 2 as real) * g <= 20 as real * g) by (nonlinear_arith)
        requires
            exact::size(p / 2 as real) <= 20 as real,
            g > 0 as real,
    ;
}

} // verus!
