//! Doubles as exact numbers: what each operation comes to, in the reals, and how far
//! rounding can take it from there.
use crate::double::Datum;
use crate::ladder;
use crate::ladder::{BINADE, TOP};
use crate::order;
use vstd::arithmetic::power2::*;
use vstd::prelude::*;

verus! {

/// The number that a double stands for.
pub open spec fn value(x: Datum) -> real {
    x.units() as real / ladder::one() as real
}

/// The distance of a number from zero.
pub open spec fn size(x: real) -> real {
    if x < 0 as real {
        0 as real - x
    } else {
        x
    }
}

/// The step of doubles, relative to their size: 2^-52.
pub open spec fn grain() -> real {
    1 as real / 0x10_0000_0000_0000 as real
}

/// The smallest positive double: 2^-1074.
pub open spec fn speck() -> real {
    1 as real / ladder::one() as real
}

/// Two to the power of 1000. What is not larger does not overflow.
pub open spec fn limit() -> real {
    pow2(1000) as real
}

/// `x` is `exact` up to one rounding.
pub open spec fn rounds(x: real, exact: real) -> bool {
    size(x - exact) <= size(exact) * grain() + speck()
}

/// Units over units are values over values.
proof fn lemma_unit()
    ensures
        ladder::one() as real > 0 as real,
        speck() > 0 as real,
        speck() * (ladder::one() as real) == 1 as real,
{
    lemma_pow2_pos(1074);
    let o = ladder::one() as real;
    assert((1 as real / o) * o == 1 as real && 1 as real / o > 0 as real) by (nonlinear_arith)
        requires
            o > 0 as real,
    ;
}

/// The units of a number are its value, counted in the smallest double.
pub proof fn lemma_units(x: Datum)
    ensures
        x.units() as real == value(x) * (ladder::one() as real),
        value(x) == x.units() as real * speck(),
        x.units() < 0 <==> value(x) < 0 as real,
        x.units() > 0 <==> value(x) > 0 as real,
        x.units() == 0 <==> value(x) == 0 as real,
        size(value(x)) == value(x.absolute()),
{
    lemma_unit();
    let o = ladder::one() as real;
    let u = x.units() as real;
    assert((u / o) * o == u && u / o == u * (1 as real / o)) by (nonlinear_arith)
        requires
            o > 0 as real,
    ;
    assert((u < 0 as real <==> u / o < 0 as real) && (u > 0 as real <==> u / o > 0 as real))
        by (nonlinear_arith)
        requires
            o > 0 as real,
    ;
    let v = 0 as real - u;
    assert(v / o == 0 as real - u / o) by (nonlinear_arith)
        requires
            o > 0 as real,
            v == 0 as real - u,
    ;
    assert(x.absolute().units() as real == if u < 0 as real {
        v
    } else {
        u
    });
}

/// Values are ordered as units are.
pub proof fn lemma_value_order(x: Datum, y: Datum)
    ensures
        x.units() <= y.units() <==> value(x) <= value(y),
        x.units() < y.units() <==> value(x) < value(y),
{
    lemma_unit();
    lemma_units(x);
    lemma_units(y);
    let o = ladder::one() as real;
    let (a, b) = (value(x), value(y));
    assert((a <= b <==> a * o <= b * o) && (a < b <==> a * o < b * o)) by (nonlinear_arith)
        requires
            o > 0 as real,
    ;
}

/// How far rounding takes a quotient, in units.
proof fn lemma_round_error(n: nat, d: nat)
    requires
        d > 0,
        ladder::round(n, d) < TOP,
    ensures
        ({
            let r = ladder::mag(ladder::round(n, d));
            let gap = if r * d <= n {
                n - r * d
            } else {
                r * d - n
            };
            gap * (BINADE as nat) <= n + d * (BINADE as nat)
        }),
{
    ladder::lemma_rounds_to_nearest(n, d);
    let rung = ladder::round(n, d);
    let r = ladder::mag(rung);
    let b = BINADE as nat;
    let u = pow2(ladder::exponent(rung));
    lemma_pow2_pos(ladder::exponent(rung));
    ladder::lemma_step(rung);
    if rung > 0 {
        let below = (rung - 1) as nat;
        ladder::lemma_step(below);
        let v = pow2(ladder::exponent(below));
        if ladder::exponent(below) < ladder::exponent(rung) {
            lemma_pow2_strictly_increases(ladder::exponent(below), ladder::exponent(rung));
        } else if ladder::exponent(below) > ladder::exponent(rung) {
            assert(false) by {
                assert(below / b <= rung / b) by (nonlinear_arith)
                    requires
                        below <= rung,
                        b > 0,
                ;
            }
        }
        assert(v <= u);
    }
    lemma2_to64();
    // The step at the rung is one unit, or at most 2^-52 of its magnitude.
    assert(u == 1 || u * b <= r) by {
        if rung >= b {
            assert(ladder::significand(rung) >= b);
            assert(u * b <= ladder::significand(rung) * u) by (nonlinear_arith)
                requires
                    ladder::significand(rung) >= b,
            ;
        }
    }
    let up = 2 * n - d * (r + r + u);
    assert(2 * n <= d * (r + (r + u)));
    assert(2 * (n - r * d) <= d * u) by (nonlinear_arith)
        requires
            2 * n <= d * (r + (r + u)),
    ;
    if rung > 0 {
        let m = ladder::mag((rung - 1) as nat);
        assert(2 * n >= d * (m + r));
        assert(2 * (r * d - n) <= d * u) by (nonlinear_arith)
            requires
                2 * n >= d * (m + r),
                m + u >= r,
        ;
    } else {
        ladder::lemma_positive(0);
        assert(0 * d == 0);
    }
    let gap = if r * d <= n {
        n - r * d
    } else {
        r * d - n
    };
    assert(gap >= 0 && 2 * gap <= d * u);
    if u == 1 {
        assert(gap * b <= n + d * b) by (nonlinear_arith)
            requires
                2 * gap <= d * u,
                u == 1,
                gap >= 0,
        ;
    } else {
        // gap <= d u / 2 and d u b <= d r <= n + gap
        assert(d * u * b <= d * r) by (nonlinear_arith)
            requires
                u * b <= r,
        ;
        assert(r * d <= n + gap);
        assert(gap * b <= n + d * b) by (nonlinear_arith)
            requires
                2 * gap <= d * u,
                d * u * b <= d * r,
                r * d <= n + gap,
                gap >= 0,
                b >= 2,
                d > 0,
        {
            assert((2 * gap) * b <= (d * u) * b);
            assert((2 * gap) * b <= n + gap);
            assert(gap <= gap * b);
        }
    }
}

/// A rounded quotient is the quotient up to one rounding.
proof fn lemma_round_value(negative: bool, n: nat, d: nat)
    requires
        d > 0,
        ladder::round(n, d) < TOP,
    ensures
        rounds(
            value(Datum::rounded(negative, n, d)),
            if negative {
                0 as real - (n as real / d as real) * speck()
            } else {
                (n as real / d as real) * speck()
            },
        ),
{
    let rung = ladder::round(n, d);
    let m = ladder::mag(rung);
    let b = BINADE as nat;
    lemma_round_error(n, d);
    lemma_unit();
    let x = Datum::rounded(negative, n, d);
    lemma_units(x);
    let (mr, nr, dr) = (m as real, n as real, d as real);
    let q = nr / dr;
    let w = 0x10_0000_0000_0000 as real;
    let g = grain();
    assert(q * dr == nr && q >= 0 as real) by (nonlinear_arith)
        requires
            q == nr / dr,
            dr > 0 as real,
            nr >= 0 as real,
    ;
    assert(g * w == 1 as real && g > 0 as real) by (nonlinear_arith)
        requires
            g == 1 as real / w,
            w > 0 as real,
    ;
    assert((m * d) as real == mr * dr) by (nonlinear_arith)
        requires
            mr == m as real,
            dr == d as real,
    ;
    assert((d * b) as real == dr * w) by (nonlinear_arith)
        requires
            dr == d as real,
            w == b as real,
    ;
    let gap = if m * d <= n {
        n - m * d
    } else {
        m * d - n
    };
    assert((gap * b) as real == (gap as real) * w) by (nonlinear_arith)
        requires
            w == b as real,
    ;
    let gr = gap as real;
    assert(gr * w <= nr + dr * w);
    assert(gr == size(mr * dr - q * dr));
    // Divide by the divisor and by 2^52.
    let e = size(mr - q);
    assert(gr == e * dr) by (nonlinear_arith)
        requires
            gr == size(mr * dr - q * dr),
            e == size(mr - q),
            dr > 0 as real,
    ;
    assert(e <= q * g + 1 as real) by (nonlinear_arith)
        requires
            (e * dr) * w <= q * dr + dr * w,
            g * w == 1 as real,
            dr > 0 as real,
            w > 0 as real,
            g > 0 as real,
    {
        assert((e * w) * dr <= (q + w) * dr);
        assert(e * w <= q + w);
        assert((e * w) * g <= (q + w) * g);
        assert((e * w) * g == e * (g * w));
        assert((q + w) * g == q * g + g * w);
    }
    // Into values.
    let s = speck();
    assert(size(mr * s - q * s) == e * s) by (nonlinear_arith)
        requires
            e == size(mr - q),
            s > 0 as real,
    ;
    assert(e * s <= (q * s) * g + s) by (nonlinear_arith)
        requires
            e <= q * g + 1 as real,
            s > 0 as real,
    {
        assert(e * s <= (q * g + 1 as real) * s);
        assert((q * g + 1 as real) * s == (q * s) * g + s);
    }
    assert(q * s >= 0 as real) by (nonlinear_arith)
        requires
            q >= 0 as real,
            s > 0 as real,
    ;
    if negative {
        assert(x.units() as real == 0 as real - mr);
        assert((0 as real - mr) * s == 0 as real - mr * s) by (nonlinear_arith);
    }
}

/// A quotient of at most 2^1001 does not overflow.
proof fn lemma_no_overflow(n: nat, d: nat)
    requires
        d > 0,
        n <= d * pow2(2075),
    ensures
        ladder::round(n, d) < TOP,
{
    let top = ladder::lemma_on_ladder(0x10_0000_0000_0000, 2023);
    lemma2_to64();
    lemma_pow2_adds(20, 32);
    lemma_pow2_adds(52, 2023);
    assert(n <= ladder::mag(top) * d) by (nonlinear_arith)
        requires
            n <= d * pow2(2075),
            ladder::mag(top) == pow2(2075),
    ;
    ladder::lemma_round_at_most(top, n, d);
}

/// A number of at most `2^1001` in units.
proof fn lemma_limit_in_units(x: real, n: int)
    requires
        n as real == x * (ladder::one() as real),
        size(x) <= limit() + limit(),
    ensures
        n <= pow2(2075),
        -n <= pow2(2075),
{
    lemma_unit();
    lemma_pow2_adds(1000, 1074);
    lemma_pow2_unfold(2075);
    let o = ladder::one() as real;
    let l = limit();
    assert((pow2(1000) * pow2(1074)) as real == l * o) by (nonlinear_arith)
        requires
            l == pow2(1000) as real,
            o == pow2(1074) as real,
    ;
    assert(n as real <= (l + l) * o && 0 as real - n as real <= (l + l) * o) by (nonlinear_arith)
        requires
            n as real == x * o,
            size(x) <= l + l,
            o > 0 as real,
    ;
    assert((l + l) * o == 2 as real * (l * o)) by (nonlinear_arith);
}

/// A sum is exact up to one rounding.
pub proof fn lemma_plus_exact(x: Datum, y: Datum)
    requires
        x.finite(),
        y.finite(),
        size(value(x)) <= limit(),
        size(value(y)) <= limit(),
    ensures
        x.plus(y).finite(),
        rounds(value(x.plus(y)), value(x) + value(y)),
{
    lemma_unit();
    lemma_units(x);
    lemma_units(y);
    let o = ladder::one() as real;
    let sum = x.units() + y.units();
    let e = value(x) + value(y);
    assert(sum as real == e * o) by (nonlinear_arith)
        requires
            x.units() as real == value(x) * o,
            y.units() as real == value(y) * o,
            e == value(x) + value(y),
            sum as real == x.units() as real + y.units() as real,
    ;
    lemma_limit_in_units(e, sum);
    let n = (if sum < 0 {
        -sum
    } else {
        sum
    }) as nat;
    lemma_no_overflow(n, 1);
    lemma_round_value(sum < 0, n, 1);
    assert(n as real / 1 as real == n as real);
    assert((e * o) * speck() == e) by (nonlinear_arith)
        requires
            speck() * o == 1 as real,
    ;
    assert((0 as real - e * o) * speck() == 0 as real - e) by (nonlinear_arith)
        requires
            speck() * o == 1 as real,
    ;
    ladder::lemma_positive(0);
    if sum == 0 {
        assert(e == 0 as real);
        lemma_units(x.plus(y));
    }
}

/// A difference is exact up to one rounding.
pub proof fn lemma_minus_exact(x: Datum, y: Datum)
    requires
        x.finite(),
        y.finite(),
        size(value(x)) <= limit(),
        size(value(y)) <= limit(),
    ensures
        x.minus(y).finite(),
        rounds(value(x.minus(y)), value(x) - value(y)),
{
    lemma_negated(y);
    lemma_plus_exact(x, y.negated());
}

/// The value of a negated number.
pub proof fn lemma_negated(x: Datum)
    requires
        x is Signed,
    ensures
        value(x.negated()) == 0 as real - value(x),
        size(value(x.negated())) == size(value(x)),
{
    lemma_unit();
    lemma_units(x);
    lemma_units(x.negated());
    assert((0 as real - x.units() as real) * speck() == 0 as real - x.units() as real * speck())
        by (nonlinear_arith);
}

/// A product is exact up to one rounding.
pub proof fn lemma_times_exact(x: Datum, y: Datum)
    requires
        x.finite(),
        y.finite(),
        size(value(x) * value(y)) <= limit(),
    ensures
        x.times(y).finite(),
        rounds(value(x.times(y)), value(x) * value(y)),
{
    lemma_unit();
    lemma_units(x);
    lemma_units(y);
    let o = ladder::one() as real;
    let s = speck();
    let one = ladder::one();
    if let (Datum::Signed { negative: p, rung: a }, Datum::Signed { negative: q, rung: b }) = (x, y) {
        let (ma, mb) = (ladder::mag(a), ladder::mag(b));
        let n = ma * mb;
        let (va, vb) = (size(value(x)), size(value(y)));
        lemma_units(x.absolute());
        lemma_units(y.absolute());
        assert(ma as real == va * o && mb as real == vb * o);
        assert(n as real == (va * o) * (vb * o)) by (nonlinear_arith)
            requires
                n == ma * mb,
                ma as real == va * o,
                mb as real == vb * o,
        {
            assert((ma * mb) as real == (ma as real) * (mb as real));
        }
        let e = va * vb;
        assert(size(value(x) * value(y)) == e) by (nonlinear_arith)
            requires
                e == size(value(x)) * size(value(y)),
        ;
        let quotient = n as real / o;
        assert(quotient == e * o && quotient * s == e) by (nonlinear_arith)
            requires
                quotient == n as real / o,
                n as real == (va * o) * (vb * o),
                e == va * vb,
                o > 0 as real,
                s * o == 1 as real,
        {
            assert((va * o) * (vb * o) == (e * o) * o);
            assert(((e * o) * o) / o == e * o);
            assert((e * o) * s == e * (s * o));
        }
        lemma_below_limit(e, n, one);
        lemma_no_overflow(n, one);
        lemma_round_value(p != q, n, one);
        assert(if p != q {
            value(x) * value(y) == 0 as real - e
        } else {
            value(x) * value(y) == e
        }) by (nonlinear_arith)
            requires
                e == size(value(x)) * size(value(y)),
                p ==> value(x) <= 0 as real,
                !p ==> value(x) >= 0 as real,
                q ==> value(y) <= 0 as real,
                !q ==> value(y) >= 0 as real,
        ;
    }
}

/// A quotient in units that is at most 2^1000 as a number.
proof fn lemma_below_limit(e: real, n: nat, d: nat)
    requires
        d > 0,
        0 as real <= e <= limit(),
        n as real / d as real == e * (ladder::one() as real),
    ensures
        n <= d * pow2(2075),
{
    lemma_unit();
    lemma_pow2_adds(1000, 1074);
    lemma_pow2_unfold(2075);
    let o = ladder::one() as real;
    let l = limit();
    let dr = d as real;
    let t = pow2(2075);
    assert((pow2(1000) * pow2(1074)) as real == l * o) by (nonlinear_arith)
        requires
            l == pow2(1000) as real,
            o == pow2(1074) as real,
    ;
    assert(t as real == 2 as real * (l * o));
    lemma_pow2_pos(1000);
    assert(l * o > 0 as real) by (nonlinear_arith)
        requires
            l >= e,
            e >= 0 as real,
            o > 0 as real,
            l > 0 as real,
    ;
    assert(n as real <= dr * (l * o)) by (nonlinear_arith)
        requires
            n as real / dr == e * o,
            e <= l,
            o > 0 as real,
            dr > 0 as real,
    {
        assert((n as real / dr) * dr == n as real);
        assert(e * o <= l * o);
        assert((e * o) * dr <= (l * o) * dr);
    }
    assert((d * t) as real == dr * (t as real)) by (nonlinear_arith)
        requires
            dr == d as real,
    ;
    assert(dr * (l * o) <= dr * (2 as real * (l * o))) by (nonlinear_arith)
        requires
            dr > 0 as real,
            l * o > 0 as real,
    ;
}

/// A quotient is exact up to one rounding.
pub proof fn lemma_over_exact(x: Datum, y: Datum)
    requires
        x.finite(),
        y.finite(),
        value(y) != 0 as real,
        size(value(x) / value(y)) <= limit(),
    ensures
        x.over(y).finite(),
        rounds(value(x.over(y)), value(x) / value(y)),
{
    lemma_unit();
    lemma_units(x);
    lemma_units(y);
    ladder::lemma_positive(0);
    let o = ladder::one() as real;
    let s = speck();
    let one = ladder::one();
    if let (Datum::Signed { negative: p, rung: a }, Datum::Signed { negative: q, rung: b }) = (x, y) {
        let (ma, mb) = (ladder::mag(a), ladder::mag(b));
        ladder::lemma_positive(b);
        let n = ma * one;
        let (va, vb) = (size(value(x)), size(value(y)));
        lemma_units(x.absolute());
        lemma_units(y.absolute());
        assert(ma as real == va * o && mb as real == vb * o);
        assert(vb > 0 as real);
        assert(n as real == (va * o) * o) by (nonlinear_arith)
            requires
                n == ma * one,
                ma as real == va * o,
                one as real == o,
        {
            assert((ma * one) as real == (ma as real) * (one as real));
        }
        let e = va / vb;
        assert(size(value(x) / value(y)) == e) by (nonlinear_arith)
            requires
                e == size(value(x)) / size(value(y)),
                value(y) != 0 as real,
        ;
        let quotient = n as real / (mb as real);
        assert(quotient == e * o && quotient * s == e && e >= 0 as real) by (nonlinear_arith)
            requires
                quotient == n as real / (mb as real),
                n as real == (va * o) * o,
                mb as real == vb * o,
                e == va / vb,
                o > 0 as real,
                vb > 0 as real,
                va >= 0 as real,
                s * o == 1 as real,
        {
            assert(e * vb == va);
            assert((e * o) * (vb * o) == (va * o) * o);
            assert(vb * o > 0 as real);
            assert(quotient * (vb * o) == (va * o) * o);
            assert(quotient == e * o);
            assert((e * o) * s == e * (s * o));
        }
        lemma_below_limit(e, n, mb);
        lemma_no_overflow(n, mb);
        lemma_round_value(p != q, n, mb);
        assert(if p != q {
            value(x) / value(y) == 0 as real - e
        } else {
            value(x) / value(y) == e
        }) by (nonlinear_arith)
            requires
                e == size(value(x)) / size(value(y)),
                value(y) != 0 as real,
                p ==> value(x) <= 0 as real,
                !p ==> value(x) >= 0 as real,
                q ==> value(y) <= 0 as real,
                !q ==> value(y) >= 0 as real,
        ;
        if a == 0 {
            ladder::lemma_positive(a);
        }
    }
}

/// A whole number is exact up to one rounding, and exact up to 53 bits.
pub proof fn lemma_whole_exact(i: int)
    requires
        -0x1_0000_0000_0000_0000 <= i <= 0x1_0000_0000_0000_0000,
    ensures
        Datum::whole(i).finite(),
        rounds(value(Datum::whole(i)), i as real),
        i >= 0 ==> value(Datum::whole(i)) >= 0 as real,
        -0x20_0000_0000_0000 <= i <= 0x20_0000_0000_0000 ==> value(Datum::whole(i)) == i as real,
{
    lemma_unit();
    let one = ladder::one();
    let o = one as real;
    let m = (if i < 0 {
        -i
    } else {
        i
    }) as nat;
    let n = m * one;
    lemma2_to64();
    lemma_pow2_adds(64, 1074);
    if 1138 < 2075 {
        lemma_pow2_strictly_increases(1138, 2075);
    }
    assert(n <= 1 * pow2(2075)) by (nonlinear_arith)
        requires
            n == m * one,
            m <= pow2(64),
            pow2(1138) == pow2(64) * one,
            pow2(1138) <= pow2(2075),
    ;
    lemma_no_overflow(n, 1);
    lemma_round_value(i < 0, n, 1);
    assert(n as real == (m as real) * o) by (nonlinear_arith)
        requires
            n == m * one,
            o == one as real,
    ;
    assert(n as real / 1 as real == n as real);
    assert(((m as real) * o) * speck() == m as real) by (nonlinear_arith)
        requires
            speck() * o == 1 as real,
    ;
    lemma_units(Datum::whole(i));
    if m <= 0x20_0000_0000_0000 {
        let rung = ladder::lemma_on_ladder(m, 1074);
        ladder::lemma_round_exact(rung, 1);
        assert(ladder::mag(rung) * 1 == ladder::mag(rung));
        assert(ladder::round(n, 1) == rung);
        assert((0 as real - (m as real) * o) * speck() == 0 as real - m as real)
            by (nonlinear_arith)
            requires
                speck() * o == 1 as real,
        ;
    }
}

/// A fraction is exact up to one rounding.
pub proof fn lemma_ratio_exact(a: nat, b: nat)
    requires
        a <= 0x1_0000_0000_0000_0000,
        0 < b,
    ensures
        Datum::ratio(a, b).finite(),
        rounds(value(Datum::ratio(a, b)), a as real / b as real),
        value(Datum::ratio(a, b)) >= 0 as real,
{
    lemma_unit();
    let one = ladder::one();
    let o = one as real;
    let n = a * one;
    lemma2_to64();
    lemma_pow2_adds(64, 1074);
    lemma_pow2_strictly_increases(1138, 2075);
    assert(n <= b * pow2(2075)) by (nonlinear_arith)
        requires
            n == a * one,
            a <= pow2(64),
            pow2(1138) == pow2(64) * one,
            pow2(1138) <= pow2(2075),
            b >= 1,
    {
        assert(n <= pow2(64) * one);
        assert(pow2(2075) <= b * pow2(2075));
    }
    lemma_no_overflow(n, b);
    lemma_round_value(false, n, b);
    lemma_units(Datum::ratio(a, b));
    let q = a as real / b as real;
    assert(n as real == (a as real) * o) by (nonlinear_arith)
        requires
            n == a * one,
            o == one as real,
    ;
    assert((n as real / b as real) * speck() == q) by (nonlinear_arith)
        requires
            n as real == (a as real) * o,
            q == a as real / b as real,
            speck() * o == 1 as real,
            b as real > 0 as real,
    {
        assert((n as real / b as real) == q * o);
        assert((q * o) * speck() == q * (speck() * o));
    }
}

/// `x` is `y` but for `k` parts in 2^52.
pub open spec fn near(x: real, y: real, k: int) -> bool {
    size(x - y) <= (k as real) * grain() * size(y)
}

/// Two to the power of -400.
pub open spec fn floor() -> real {
    1 as real / pow2(400) as real
}

/// Two to the power of 400.
pub open spec fn ceiling() -> real {
    pow2(400) as real
}

/// The constants of rounding, as numbers.
pub proof fn lemma_constants()
    ensures
        speck() > 0 as real,
        speck() * 0x10_0000_0000_0000 as real <= floor() * floor(),
        grain() * 0x10_0000_0000_0000 as real == 1 as real,
        grain() > 0 as real,
        floor() > 0 as real,
        floor() <= grain(),
        floor() * ceiling() == 1 as real,
        ceiling() >= 0x10_0000_0000_0000 as real,
        ceiling() * ceiling() <= limit(),
        ceiling() <= limit(),
        1 as real <= limit(),
{
    lemma_unit();
    lemma2_to64();
    lemma_pow2_pos(400);
    lemma_pow2_adds(20, 32);
    lemma_pow2_adds(400, 400);
    lemma_pow2_adds(800, 52);
    lemma_pow2_strictly_increases(800, 1000);
    lemma_pow2_strictly_increases(400, 1000);
    lemma_pow2_strictly_increases(52, 400);
    lemma_pow2_strictly_increases(852, 1074);
    let c = ceiling();
    let f = floor();
    let g = grain();
    let w = 0x10_0000_0000_0000 as real;
    let o = ladder::one() as real;
    let s = speck();
    assert((pow2(400) * pow2(400)) as real == c * c) by (nonlinear_arith)
        requires
            c == pow2(400) as real,
    ;
    assert((pow2(800) * pow2(52)) as real == (c * c) * w) by (nonlinear_arith)
        requires
            pow2(800) as real == c * c,
            pow2(52) as real == w,
    ;
    assert(f * c == 1 as real && f > 0 as real) by (nonlinear_arith)
        requires
            f == 1 as real / c,
            c > 0 as real,
    ;
    assert(g * w == 1 as real && g > 0 as real) by (nonlinear_arith)
        requires
            g == 1 as real / w,
            w > 0 as real,
    ;
    assert(f <= g) by (nonlinear_arith)
        requires
            f * c == 1 as real,
            g * w == 1 as real,
            c >= w,
            w > 0 as real,
            f > 0 as real,
            g > 0 as real,
    ;
    assert(s * w <= f * f) by (nonlinear_arith)
        requires
            s * o == 1 as real,
            f * c == 1 as real,
            (c * c) * w <= o,
            s > 0 as real,
            f > 0 as real,
            w > 0 as real,
            c > 0 as real,
    {
        // (s w) (c c) <= s o == 1 == (f f) (c c)
        assert(s * ((c * c) * w) <= s * o);
        assert((f * f) * (c * c) == (f * c) * (f * c));
        assert((s * w) * (c * c) <= (f * f) * (c * c));
        assert(c * c > 0 as real);
    }
}

/// One rounding of a number that does not vanish.
pub proof fn lemma_near_rounds(x: real, y: real)
    requires
        rounds(x, y),
        size(y) >= floor() * floor(),
    ensures
        near(x, y, 2),
{
    lemma_constants();
    let g = grain();
    let s = speck();
    let w = 0x10_0000_0000_0000 as real;
    assert(s <= g * size(y)) by (nonlinear_arith)
        requires
            s * w <= size(y),
            g * w == 1 as real,
            g > 0 as real,
    {
        assert((s * w) * g <= size(y) * g);
        assert((s * w) * g == s * (g * w));
    }
    assert(size(y) * g + g * size(y) == 2 as real * g * size(y)) by (nonlinear_arith);
}

pub proof fn lemma_near_weaker(x: real, y: real, k: int, l: int)
    requires
        near(x, y, k),
        k <= l,
    ensures
        near(x, y, l),
{
    lemma_constants();
    let g = grain();
    assert((k as real) * g * size(y) <= (l as real) * g * size(y)) by (nonlinear_arith)
        requires
            k as real <= l as real,
            g > 0 as real,
            size(y) >= 0 as real,
    {
        assert((k as real) * g <= (l as real) * g);
    }
}

/// The size of what is near a number.
pub proof fn lemma_near_size(x: real, y: real, k: int)
    requires
        near(x, y, k),
        0 <= k <= 1000,
    ensures
        2 as real * size(x) <= 3 as real * size(y),
        2 as real * size(x) >= size(y),
        size(x) <= size(y) + (k as real) * grain() * size(y),
        size(x) >= size(y) - (k as real) * grain() * size(y),
        y > 0 as real ==> x > 0 as real,
        y < 0 as real ==> x < 0 as real,
{
    lemma_constants();
    let g = grain();
    let t = (k as real) * g;
    assert(0 as real <= t && 2 as real * t <= 1 as real) by (nonlinear_arith)
        requires
            t == (k as real) * g,
            g * 0x10_0000_0000_0000 as real == 1 as real,
            g > 0 as real,
            0 as real <= k as real <= 1000 as real,
    ;
    let e = t * size(y);
    assert(0 as real <= e && 2 as real * e <= size(y)) by (nonlinear_arith)
        requires
            e == t * size(y),
            0 as real <= t,
            2 as real * t <= 1 as real,
            size(y) >= 0 as real,
    ;
    assert(y != 0 as real ==> 2 as real * e <= size(y));
}

/// Products of what is near are near.
pub proof fn lemma_near_product(x: real, a: real, i: int, y: real, b: real, j: int)
    requires
        near(x, a, i),
        near(y, b, j),
        0 <= i <= 1000,
        0 <= j <= 1000,
    ensures
        near(x * y, a * b, i + j + 1),
{
    lemma_constants();
    let g = grain();
    let (p, q) = ((i as real) * g, (j as real) * g);
    lemma_near_size(y, b, j);
    let (sa, sb) = (size(a), size(b));
    assert(size(a * b) == sa * sb) by (nonlinear_arith)
        requires
            sa == size(a),
            sb == size(b),
    ;
    let (dx, dy) = (x - a, y - b);
    assert(x * y - a * b == dx * y + a * dy) by (nonlinear_arith)
        requires
            dx == x - a,
            dy == y - b,
    ;
    assert(size(dx * y + a * dy) <= size(dx) * size(y) + sa * size(dy)) by (nonlinear_arith)
        requires
            sa == size(a),
    {
        assert(size(dx * y) == size(dx) * size(y));
        assert(size(a * dy) == size(a) * size(dy));
    }
    assert(p >= 0 as real && q >= 0 as real) by (nonlinear_arith)
        requires
            p == (i as real) * g,
            q == (j as real) * g,
            i as real >= 0 as real,
            j as real >= 0 as real,
            g > 0 as real,
    ;
    assert(size(dx) * size(y) + sa * size(dy) <= (p + q + p * q) * (sa * sb)) by (nonlinear_arith)
        requires
            size(dx) <= p * sa,
            size(y) <= sb + q * sb,
            size(dy) <= q * sb,
            sa >= 0 as real,
            sb >= 0 as real,
            p >= 0 as real,
            q >= 0 as real,
            size(dx) >= 0 as real,
            size(y) >= 0 as real,
            size(dy) >= 0 as real,
    {
        assert(size(dx) * size(y) <= (p * sa) * size(y));
        assert((p * sa) * size(y) <= (p * sa) * (sb + q * sb));
        assert(sa * size(dy) <= sa * (q * sb));
        assert((p * sa) * (sb + q * sb) == (p + p * q) * (sa * sb));
        assert(sa * (q * sb) == q * (sa * sb));
    }
    assert(p * q <= g) by (nonlinear_arith)
        requires
            p == (i as real) * g,
            q == (j as real) * g,
            0 as real <= i as real <= 1000 as real,
            0 as real <= j as real <= 1000 as real,
            g * 0x10_0000_0000_0000 as real == 1 as real,
            g > 0 as real,
    {
        let ij = (i as real) * (j as real);
        assert(ij <= 1000000 as real);
        assert(p * q == ij * (g * g));
        assert(ij * g <= 1 as real);
        assert((ij * g) * g <= g);
    }
    assert((p + q + p * q) * (sa * sb) <= ((i + j + 1) as real) * g * (sa * sb)) by (nonlinear_arith)
        requires
            p == (i as real) * g,
            q == (j as real) * g,
            p * q <= g,
            sa >= 0 as real,
            sb >= 0 as real,
            (i + j + 1) as real == i as real + j as real + 1 as real,
    {
        assert(p + q + p * q <= ((i + j + 1) as real) * g);
        assert(sa * sb >= 0 as real);
    }
}

/// Inverses of what is near are near.
pub proof fn lemma_near_inverse(x: real, a: real, k: int)
    requires
        near(x, a, k),
        0 <= k <= 1000,
        a != 0 as real,
    ensures
        x != 0 as real,
        near(1 as real / x, 1 as real / a, k + 1),
{
    lemma_constants();
    lemma_near_size(x, a, k);
    let g = grain();
    let t = (k as real) * g;
    let (sx, sa) = (size(x), size(a));
    assert(sx > 0 as real && sa > 0 as real);
    let (ix, ia) = (1 as real / x, 1 as real / a);
    assert(size(ia) * sa == 1 as real && size(ix) * sx == 1 as real) by (nonlinear_arith)
        requires
            ix == 1 as real / x,
            ia == 1 as real / a,
            sx == size(x),
            sa == size(a),
            x != 0 as real,
            a != 0 as real,
    ;
    assert(size(ix - ia) * (sx * sa) == size(x - a)) by (nonlinear_arith)
        requires
            ix == 1 as real / x,
            ia == 1 as real / a,
            sx == size(x),
            sa == size(a),
            x != 0 as real,
            a != 0 as real,
    {
        assert(ix * x == 1 as real && ia * a == 1 as real);
        assert((ix - ia) * (x * a) == a - x);
        assert(size((ix - ia) * (x * a)) == size(ix - ia) * size(x * a));
        assert(size(x * a) == sx * sa);
        assert(size(a - x) == size(x - a));
    }
    let u = ((k + 1) as real) * g;
    // t <= u (1 - t)
    assert(t <= u * (1 as real - t)) by (nonlinear_arith)
        requires
            t == (k as real) * g,
            u == ((k + 1) as real) * g,
            (k + 1) as real == k as real + 1 as real,
            0 as real <= k as real <= 1000 as real,
            g * 0x10_0000_0000_0000 as real == 1 as real,
            g > 0 as real,
    {
        let kk = (k as real) * (k as real + 1 as real);
        assert(kk <= 1001000 as real);
        assert(u * t == (kk * g) * g);
        assert(kk * g <= 1 as real);
        assert((kk * g) * g <= g);
        assert(u - t == g);
    }
    let e = size(ix - ia);
    assert(e <= u * size(ia)) by (nonlinear_arith)
        requires
            e * (sx * sa) <= t * sa,
            sx >= sa - t * sa,
            t <= u * (1 as real - t),
            size(ia) * sa == 1 as real,
            sa > 0 as real,
            sx > 0 as real,
            u >= 0 as real,
            e >= 0 as real,
    {
        // e sx <= t, and u size(ia) sx >= u (1 - t) >= t
        assert((e * sx) * sa <= t * sa);
        assert(e * sx <= t);
        let r = u * size(ia);
        assert(size(ia) * sx >= size(ia) * (sa - t * sa)) by {
            assert(size(ia) >= 0 as real);
        }
        assert(size(ia) * (sa - t * sa) == 1 as real - t);
        assert(r * sx == u * (size(ia) * sx));
        assert(u * (size(ia) * sx) >= u * (1 as real - t));
        assert(e * sx <= r * sx);
    }
}

/// What is near something near is near.
pub proof fn lemma_near_chain(x: real, y: real, i: int, z: real, j: int)
    requires
        near(x, y, i),
        near(y, z, j),
        0 <= i <= 1000,
        0 <= j <= 1000,
    ensures
        near(x, z, i + j + 1),
{
    lemma_constants();
    let g = grain();
    let (p, q) = ((i as real) * g, (j as real) * g);
    lemma_near_size(y, z, j);
    let sz = size(z);
    assert(size(x - z) <= size(x - y) + size(y - z));
    assert(p * q <= g && p >= 0 as real) by (nonlinear_arith)
        requires
            p == (i as real) * g,
            q == (j as real) * g,
            0 as real <= i as real <= 1000 as real,
            0 as real <= j as real <= 1000 as real,
            g * 0x10_0000_0000_0000 as real == 1 as real,
            g > 0 as real,
    {
        let ij = (i as real) * (j as real);
        assert(ij <= 1000000 as real);
        assert(p * q == ij * (g * g));
        assert(ij * g <= 1 as real);
        assert((ij * g) * g <= g);
    }
    assert(p * size(y) + q * sz <= ((i + j + 1) as real) * g * sz) by (nonlinear_arith)
        requires
            size(y) <= sz + q * sz,
            p == (i as real) * g,
            q == (j as real) * g,
            p * q <= g,
            p >= 0 as real,
            sz >= 0 as real,
            (i + j + 1) as real == i as real + j as real + 1 as real,
    {
        assert(p * size(y) <= p * (sz + q * sz));
        assert(p * (sz + q * sz) == p * sz + (p * q) * sz);
        assert((p * q) * sz <= g * sz);
        assert(((i + j + 1) as real) * g * sz == p * sz + q * sz + g * sz);
    }
}

/// Quotients of what is near are near.
pub proof fn lemma_near_quotient(x: real, a: real, i: int, y: real, b: real, j: int)
    requires
        near(x, a, i),
        near(y, b, j),
        0 <= i <= 900,
        0 <= j <= 900,
        b != 0 as real,
    ensures
        y != 0 as real,
        near(x / y, a / b, i + j + 2),
{
    lemma_near_inverse(y, b, j);
    lemma_near_product(x, a, i, 1 as real / y, 1 as real / b, j + 1);
    assert(x * (1 as real / y) == x / y) by (nonlinear_arith)
        requires
            y != 0 as real,
    ;
    assert(a * (1 as real / b) == a / b) by (nonlinear_arith)
        requires
            b != 0 as real,
    ;
}

/// The square of the rung that a root rounds to, against what the root was taken of.
proof fn lemma_root_square(n: nat)
    requires
        pow2(1074) <= n,
        n < pow2(3172),
    ensures
        ladder::root(n) < TOP,
        ladder::root(n) > 0,
        ({
            let m = ladder::mag(ladder::root(n));
            &&& 0x10_0000_0000_0000 * (m * m - n) <= 4 * n
            &&& 0x10_0000_0000_0000 * (n - m * m) <= 4 * n
        }),
{
    let rung = ladder::root(n);
    let m = ladder::mag(rung);
    let b = BINADE as nat;
    ladder::lemma_root_to_nearest(n);
    let low = ladder::lemma_on_ladder(1, 537);
    lemma_pow2_adds(537, 537);
    lemma2_to64();
    lemma_pow2_adds(20, 32);
    ladder::lemma_root_at_least(low, n);
    order::lemma_mag_monotone(low, rung);
    lemma_pow2_strictly_increases(52, 537);
    if rung < b {
        assert(rung * pow2(0) == rung) by (nonlinear_arith)
            requires
                pow2(0) == 1,
        ;
    }
    let e = ladder::exponent(rung);
    let p = pow2(e);
    lemma_pow2_pos(e);
    ladder::lemma_step(rung);
    ladder::lemma_step((rung - 1) as nat);
    let f = ladder::exponent((rung - 1) as nat);
    assert(f <= e) by {
        if rung > b {
            assert((rung - 1) / b as int <= rung / b);
        }
    }
    if f < e {
        lemma_pow2_strictly_increases(f, e);
    }
    assert(b * p <= m) by (nonlinear_arith)
        requires
            m == (b + rung % b) * p,
            b > 0,
    ;
    let below = ladder::mag((rung - 1) as nat);
    assert(below + p >= m);
    // Below infinity.
    if rung == TOP {
        let twice = below + m;
        assert(ladder::exponent(TOP as nat) == 2046);
        lemma_pow2_adds(52, 2046);
        assert(m == pow2(2098));
        lemma_pow2_adds(2098, 2098);
        lemma_pow2_adds(2, 3172);
        lemma_pow2_strictly_increases(3174, 4196);
        assert(twice * twice >= m * m) by (nonlinear_arith)
            requires
                twice >= m,
        ;
    }
    let down = below + m;
    let up = m + (m + p);
    assert(0x10_0000_0000_0000 * (m * m - n) <= 4 * n && 0x10_0000_0000_0000 * (n - m * m) <= 4
        * n) by (nonlinear_arith)
        requires
            4 * n >= down * down,
            4 * n <= up * up,
            down + p >= 2 * m,
            up == 2 * m + p,
            b * p <= m,
            b == 0x10_0000_0000_0000,
            p > 0,
            m > 0,
            down <= 2 * m,
    {
        let w = 0x10_0000_0000_0000int;
        // The square root lies within half a step.
        assert(up * up == 4 * (m * m) + 4 * (m * p) + p * p);
        assert(p <= m);
        assert(p * p <= m * p);
        assert(4 * n <= 4 * (m * m) + 5 * (m * p));
        let least = 2 * m - p;
        assert(0 < least && least <= down);
        assert(down * down >= least * least);
        assert(least * least == 4 * (m * m) - 4 * (m * p) + p * p);
        assert(4 * n >= 4 * (m * m) - 4 * (m * p));
        assert(w * (m * p) <= m * m) by {
            assert((w * p) * m <= m * m);
            assert((w * p) * m == w * (m * p));
        }
        assert(4 * (w * (n - m * m)) <= 5 * (m * m)) by {
            assert(4 * (n - m * m) <= 5 * (m * p));
            assert(w * (4 * (n - m * m)) <= w * (5 * (m * p)));
        }
        assert(4 * (w * (m * m - n)) <= 4 * (m * m)) by {
            assert(4 * (m * m - n) <= 4 * (m * p));
            assert(w * (4 * (m * m - n)) <= w * (4 * (m * p)));
        }
        assert(m * m <= 2 * n) by {
            assert(w * (m * m) - w * n <= m * m);
        }
    }
}

/// The square of a square root is the number, up to rounding.
pub proof fn lemma_root_exact(x: Datum)
    requires
        x.finite(),
        value(x) >= 0 as real,
    ensures
        ({
            let r = value(x.root());
            &&& x.root().finite()
            &&& r >= 0 as real
            &&& size(r * r - value(x)) <= 4 as real * grain() * value(x)
            &&& value(x) == 0 as real <==> r == 0 as real
        }),
{
    lemma_unit();
    lemma_units(x);
    ladder::lemma_positive(0);
    lemma_constants();
    if let Datum::Signed { negative, rung } = x {
        ladder::lemma_positive(rung);
        let one = ladder::one();
        if rung > 0 {
            let u = ladder::mag(rung);
            let n = u * one;
            order::lemma_mag_monotone(rung, TOP as nat);
            assert(ladder::exponent(TOP as nat) == 2046);
            lemma2_to64();
            lemma_pow2_adds(20, 32);
            lemma_pow2_adds(52, 2046);
            ladder::lemma_mag_increasing(rung, TOP as nat);
            lemma_pow2_adds(2098, 1074);
            lemma_pow2_pos(1074);
            assert(one <= n && n < pow2(3172)) by (nonlinear_arith)
                requires
                    n == u * one,
                    1 <= u,
                    u < pow2(2098),
                    one > 0,
                    pow2(2098) * one == pow2(3172),
            ;
            lemma_root_square(n);
            let root = x.root();
            lemma_units(root);
            ladder::lemma_positive(ladder::root(n));
            let m = ladder::mag(ladder::root(n));
            let o = one as real;
            let v = value(x);
            let r = value(root);
            let g = grain();
            let w = 0x10_0000_0000_0000 as real;
            assert((m * m) as real == (r * r) * (o * o)) by (nonlinear_arith)
                requires
                    m as real == r * o,
            {
                assert((m * m) as real == (m as real) * (m as real));
                assert((r * o) * (r * o) == (r * r) * (o * o));
            }
            assert(n as real == v * (o * o)) by (nonlinear_arith)
                requires
                    n == u * one,
                    u as real == v * o,
                    one as real == o,
            {
                assert((u * one) as real == (u as real) * (one as real));
                assert((v * o) * o == v * (o * o));
            }
            let a = (m * m) as real;
            let c = n as real;
            assert(w * (a - c) <= 4 as real * c && w * (c - a) <= 4 as real * c);
            assert(w * (r * r - v) <= 4 as real * v && w * (v - r * r) <= 4 as real * v)
                by (nonlinear_arith)
                requires
                    w * (a - c) <= 4 as real * c,
                    w * (c - a) <= 4 as real * c,
                    a == (r * r) * (o * o),
                    c == v * (o * o),
                    o > 0 as real,
            {
                let k = o * o;
                assert(k > 0 as real);
                assert((w * (r * r - v)) * k == w * (a - c));
                assert((w * (v - r * r)) * k == w * (c - a));
                assert((4 as real * v) * k == 4 as real * c);
            }
            assert(size(r * r - v) <= 4 as real * g * v) by (nonlinear_arith)
                requires
                    w * (r * r - v) <= 4 as real * v,
                    w * (v - r * r) <= 4 as real * v,
                    g * w == 1 as real,
                    g > 0 as real,
            {
                assert(g * (w * (r * r - v)) <= g * (4 as real * v));
                assert(g * (w * (v - r * r)) <= g * (4 as real * v));
                assert(g * (w * (r * r - v)) == (g * w) * (r * r - v));
                assert(g * (w * (v - r * r)) == (g * w) * (v - r * r));
            }
        } else {
            lemma_units(x.root());
            assert(value(x) == 0 as real);
            let v = value(x);
            assert(v * v == 0 as real && 4 as real * grain() * v == 0 as real) by (nonlinear_arith)
                requires
                    v == 0 as real,
            ;
        }
    }
}

} // verus!
