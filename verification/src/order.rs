//! How the operations on doubles keep order.
use crate::double::Datum;
use crate::ladder;
use crate::ladder::TOP;
use vstd::arithmetic::power2::*;
use vstd::prelude::*;

verus! {

/// The value, in units, that `a / d` units round to.
spec fn rounded_value(a: int, d: nat) -> int {
    if a < 0 {
        -(ladder::mag(ladder::round((-a) as nat, d)) as int)
    } else {
        ladder::mag(ladder::round(a as nat, d)) as int
    }
}

/// Magnitudes do not fall with their rungs.
pub proof fn lemma_mag_monotone(low: nat, high: nat)
    requires
        low <= high,
    ensures
        ladder::mag(low) <= ladder::mag(high),
{
    if low < high {
        ladder::lemma_mag_increasing(low, high);
    }
}

/// Rounding keeps the order of signed numbers, and their sign.
proof fn lemma_rounded_value(a: int, b: int, d: nat)
    requires
        d > 0,
        a <= b,
    ensures
        rounded_value(a, d) <= rounded_value(b, d),
        a >= 0 ==> rounded_value(a, d) >= 0,
        b <= 0 ==> rounded_value(b, d) <= 0,
{
    if a >= 0 {
        assert(a * d <= b * d) by (nonlinear_arith)
            requires
                a <= b,
        ;
        ladder::lemma_round_monotone(a as nat, d, b as nat, d);
        lemma_mag_monotone(ladder::round(a as nat, d), ladder::round(b as nat, d));
    } else if b < 0 {
        assert((-b) * d <= (-a) * d) by (nonlinear_arith)
            requires
                a <= b,
        ;
        ladder::lemma_round_monotone((-b) as nat, d, (-a) as nat, d);
        lemma_mag_monotone(ladder::round((-b) as nat, d), ladder::round((-a) as nat, d));
    }
    if b == 0 {
        ladder::lemma_positive(0);
        assert(0 * d == 0);
        ladder::lemma_round_exact(0, d);
    }
}

/// A rounded number is one that a double can be.
proof fn lemma_rounded_number(a: int, d: nat)
    requires
        d > 0,
    ensures
        -(ladder::mag(TOP as nat) as int) <= rounded_value(a, d) <= ladder::mag(TOP as nat),
        ladder::round((if a < 0 {
            -a
        } else {
            a
        }) as nat, d) <= TOP,
{
    let n = (if a < 0 {
        -a
    } else {
        a
    }) as nat;
    ladder::lemma_rounds_to_nearest(n, d);
    lemma_mag_monotone(ladder::round(n, d), TOP as nat);
}

/// What a product with a positive number comes to, in units.
proof fn lemma_times_value(x: Datum, c: Datum)
    requires
        x.finite(),
        c.finite(),
        c.units() > 0,
    ensures
        x.times(c).number(),
        x.times(c).units() == rounded_value(x.units() * c.units(), ladder::one()),
{
    lemma_pow2_pos(1074);
    ladder::lemma_positive(0);
    if let (Datum::Signed { negative, rung: a }, Datum::Signed { rung: b, .. }) = (x, c) {
        let n = ladder::mag(a) * ladder::mag(b);
        lemma_rounded_number(n as int, ladder::one());
        ladder::lemma_positive(a);
        assert((-ladder::mag(a)) * ladder::mag(b) == -n) by (nonlinear_arith)
            requires
                n == ladder::mag(a) * ladder::mag(b),
        ;
        if n == 0 {
            assert(0 * ladder::one() == 0);
            ladder::lemma_round_exact(0, ladder::one());
        }
    }
}

/// Multiplying by a positive number keeps order.
pub proof fn lemma_times_monotone(x: Datum, y: Datum, c: Datum)
    requires
        x.number(),
        y.number(),
        c.finite(),
        c.units() > 0,
        x.units() <= y.units(),
    ensures
        x.times(c).number(),
        y.times(c).number(),
        x.times(c).units() <= y.times(c).units(),
{
    lemma_pow2_pos(1074);
    ladder::lemma_positive(0);
    if let (Datum::Signed { rung: a, .. }, Datum::Signed { rung: b, .. }) = (x, y) {
        if a < TOP {
            lemma_times_value(x, c);
            lemma_rounded_number(x.units() * c.units(), ladder::one());
            ladder::lemma_mag_increasing(a, TOP as nat);
        }
        if b < TOP {
            lemma_times_value(y, c);
            lemma_rounded_number(y.units() * c.units(), ladder::one());
            ladder::lemma_mag_increasing(b, TOP as nat);
        }
        if a < TOP && b < TOP {
            assert(x.units() * c.units() <= y.units() * c.units()) by (nonlinear_arith)
                requires
                    x.units() <= y.units(),
                    c.units() > 0,
            ;
            lemma_rounded_value(x.units() * c.units(), y.units() * c.units(), ladder::one());
        }
        ladder::lemma_positive(TOP as nat);
    }
}

/// What a quotient by a positive number comes to, in units.
proof fn lemma_over_value(x: Datum, c: Datum)
    requires
        x.finite(),
        c.finite(),
        c.units() > 0,
    ensures
        x.over(c).number(),
        x.over(c).units() == rounded_value(x.units() * ladder::one(), c.units() as nat),
{
    lemma_pow2_pos(1074);
    ladder::lemma_positive(0);
    if let (Datum::Signed { negative, rung: a }, Datum::Signed { rung: b, .. }) = (x, c) {
        let n = ladder::mag(a) * ladder::one();
        ladder::lemma_positive(b);
        ladder::lemma_positive(a);
        lemma_rounded_number(n as int, ladder::mag(b));
        assert((-ladder::mag(a)) * ladder::one() == -n) by (nonlinear_arith)
            requires
                n == ladder::mag(a) * ladder::one(),
        ;
        if n == 0 {
            assert(0 * ladder::mag(b) == 0);
            ladder::lemma_round_exact(0, ladder::mag(b));
        }
    }
}

/// Dividing by a positive number keeps order, and a number that is not negative does
/// not grow with its divisor.
pub proof fn lemma_over_monotone(x: Datum, y: Datum, c: Datum, d: Datum)
    requires
        x.number(),
        y.number(),
        c.finite(),
        d.finite(),
        0 < d.units() <= c.units(),
        x.units() <= y.units(),
    ensures
        x.over(c).number(),
        y.over(d).number(),
        x.units() >= 0 ==> x.over(c).units() <= y.over(d).units(),
        x.units() <= 0 ==> x.over(c).units() <= 0,
{
    let one = ladder::one();
    lemma_pow2_pos(1074);
    ladder::lemma_positive(0);
    if let (Datum::Signed { rung: a, .. }, Datum::Signed { rung: b, .. }) = (x, y) {
        let (m, n) = (c.units() as nat, d.units() as nat);
        ladder::lemma_positive(TOP as nat);
        if a < TOP {
            lemma_over_value(x, c);
            lemma_rounded_number(x.units() * one, m);
            ladder::lemma_mag_increasing(a, TOP as nat);
            if x.units() <= 0 {
                assert(x.units() * one <= 0) by (nonlinear_arith)
                    requires
                        x.units() <= 0,
                ;
                lemma_rounded_value(x.units() * one, x.units() * one, m);
            }
        }
        if b < TOP {
            lemma_over_value(y, d);
            lemma_rounded_number(y.units() * one, n);
            ladder::lemma_mag_increasing(b, TOP as nat);
        }
        if a < TOP && b < TOP && x.units() >= 0 {
            let (p, q) = (x.units(), y.units());
            assert(0 <= p * one && 0 <= q * one && (p * one) * n <= (q * one) * m)
                by (nonlinear_arith)
                requires
                    0 <= p <= q,
                    0 <= n <= m,
            {
                assert(p * one <= q * one);
                assert((p * one) * n <= (q * one) * n);
                assert((q * one) * n <= (q * one) * m);
            }
            ladder::lemma_round_monotone((p * one) as nat, m, (q * one) as nat, n);
            lemma_mag_monotone(
                ladder::round((p * one) as nat, m),
                ladder::round((q * one) as nat, n),
            );
        }
    }
}

/// Dividing by a positive number keeps order, whatever the signs.
pub proof fn lemma_over_positive(x: Datum, y: Datum, c: Datum)
    requires
        x.finite(),
        y.finite(),
        c.finite(),
        c.units() > 0,
        x.units() <= y.units(),
    ensures
        x.over(c).number(),
        y.over(c).number(),
        x.over(c).units() <= y.over(c).units(),
{
    let one = ladder::one();
    lemma_over_value(x, c);
    lemma_over_value(y, c);
    assert(x.units() * one <= y.units() * one) by (nonlinear_arith)
        requires
            x.units() <= y.units(),
    ;
    lemma_rounded_value(x.units() * one, y.units() * one, c.units() as nat);
}

/// What a sum comes to, in units.
proof fn lemma_plus_value(x: Datum, y: Datum)
    requires
        x.finite(),
        y.finite(),
    ensures
        x.plus(y).number(),
        x.plus(y).units() == rounded_value(x.units() + y.units(), 1),
{
    let sum = x.units() + y.units();
    lemma_rounded_number(sum, 1);
    ladder::lemma_positive(0);
    if sum == 0 {
        assert(0 * 1 == 0);
        ladder::lemma_round_exact(0, 1);
    }
}

/// Adding a finite number keeps order.
pub proof fn lemma_plus_monotone(x: Datum, y: Datum, c: Datum)
    requires
        x.number(),
        y.number(),
        c.finite(),
        x.units() <= y.units(),
    ensures
        c.plus(x).number(),
        c.plus(y).number(),
        c.plus(x).units() <= c.plus(y).units(),
{
    ladder::lemma_positive(0);
    if let (Datum::Signed { rung: a, .. }, Datum::Signed { rung: b, .. }) = (x, y) {
        ladder::lemma_positive(TOP as nat);
        if a < TOP {
            lemma_plus_value(c, x);
            lemma_rounded_number(c.units() + x.units(), 1);
            ladder::lemma_mag_increasing(a, TOP as nat);
        }
        if b < TOP {
            lemma_plus_value(c, y);
            lemma_rounded_number(c.units() + y.units(), 1);
            ladder::lemma_mag_increasing(b, TOP as nat);
        }
        if a < TOP && b < TOP {
            lemma_rounded_value(c.units() + x.units(), c.units() + y.units(), 1);
        }
    }
}

/// Taking away more leaves no more.
pub proof fn lemma_minus_monotone(x: Datum, y: Datum, c: Datum)
    requires
        x.number(),
        y.number(),
        c.finite(),
        x.units() <= y.units(),
    ensures
        c.minus(x).number(),
        c.minus(y).number(),
        c.minus(y).units() <= c.minus(x).units(),
{
    lemma_plus_monotone(y.negated(), x.negated(), c);
}

/// Adding a number that is not negative does not make less.
pub proof fn lemma_plus_raises(x: Datum, c: Datum)
    requires
        x.finite(),
        c.number(),
        c.units() >= 0,
    ensures
        x.plus(c).number(),
        x.plus(c).units() >= x.units(),
{
    ladder::lemma_positive(0);
    lemma_plus_monotone(Datum::zero(false), c, x);
    lemma_plus_value(x, Datum::zero(false));
    if let Datum::Signed { rung, .. } = x {
        ladder::lemma_round_exact(rung, 1);
        assert(ladder::mag(rung) * 1 == ladder::mag(rung));
    }
}

} // verus!
