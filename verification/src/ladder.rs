//! The ladder of double-precision magnitudes, and rounding onto it.
//!
//! The non-negative doubles, in increasing order and with infinity as the last
//! of them, are the rungs `0, 1, 2, ..., TOP` of a ladder: rung `r` is the
//! magnitude whose bit pattern is `r`. Every magnitude is a whole number of
//! units of 2^-1074, the smallest positive one, so the model needs no fractions:
//! [`mag`] gives the number of units, and an exact quotient `n / d` of units
//! rounds to the rung that [`nearest`] accepts.
use vstd::arithmetic::power2::*;
use vstd::prelude::*;

verus! {

/// Rungs per binade: 2^52.
pub const BINADE: u64 = 0x10_0000_0000_0000;

/// The rung of infinity. Read as a magnitude it is 2^1024, which makes overflow
/// a case of rounding to the nearest rung.
pub const TOP: u64 = 0x7FF0_0000_0000_0000;

/// One, in units.
pub open spec fn one() -> nat {
    pow2(1074)
}

/// The exponent of two that the significand of a rung is scaled by.
pub open spec fn exponent(rung: nat) -> nat {
    if rung < BINADE {
        0
    } else {
        (rung / (BINADE as nat) - 1) as nat
    }
}

/// The significand of a rung.
pub open spec fn significand(rung: nat) -> nat {
    if rung < BINADE {
        rung
    } else {
        BINADE as nat + rung % (BINADE as nat)
    }
}

/// The magnitude of a rung, in units of 2^-1074.
pub open spec fn mag(rung: nat) -> nat {
    significand(rung) * pow2(exponent(rung))
}

/// `rung` is the nearest one to `n / d` units; half-way between two rungs it is
/// the even one.
pub open spec fn nearest(rung: nat, n: nat, d: nat) -> bool {
    &&& rung <= TOP
    &&& rung > 0 ==> {
        ||| 2 * n > d * (mag((rung - 1) as nat) + mag(rung))
        ||| 2 * n == d * (mag((rung - 1) as nat) + mag(rung)) && rung % 2 == 0
    }
    &&& rung < TOP ==> {
        ||| 2 * n < d * (mag(rung) + mag(rung + 1))
        ||| 2 * n == d * (mag(rung) + mag(rung + 1)) && rung % 2 == 0
    }
}

/// The rung that `n / d` units round to.
pub open spec fn round(n: nat, d: nat) -> nat {
    choose|rung: nat| nearest(rung, n, d)
}

/// `rung` is the nearest one to the square root of `n`, in units; half-way between
/// two rungs it is the even one.
pub open spec fn nearest_root(rung: nat, n: nat) -> bool {
    &&& rung <= TOP
    &&& rung > 0 ==> {
        let twice = mag((rung - 1) as nat) + mag(rung);
        4 * n > twice * twice || (4 * n == twice * twice && rung % 2 == 0)
    }
    &&& rung < TOP ==> {
        let twice = mag(rung) + mag(rung + 1);
        4 * n < twice * twice || (4 * n == twice * twice && rung % 2 == 0)
    }
}

/// The rung that the square root of `n` rounds to.
pub open spec fn root(n: nat) -> nat {
    choose|rung: nat| nearest_root(rung, n)
}

/// Neighbouring rungs are one scaled unit apart.
pub proof fn lemma_step(rung: nat)
    ensures
        mag(rung + 1) == mag(rung) + pow2(exponent(rung)),
        mag(rung) < mag(rung + 1),
{
    let b = BINADE as nat;
    let e = exponent(rung);
    lemma_pow2_pos(e);
    lemma2_to64();
    if rung < b {
        assert(rung * pow2(0) == rung && (rung + 1) * pow2(0) == rung + 1) by (nonlinear_arith)
            requires
                pow2(0) == 1,
        ;
        if rung + 1 == b {
            assert((rung + 1) / b == 1 && (rung + 1) % b == 0) by (nonlinear_arith)
                requires
                    rung + 1 == b,
                    b > 0,
            ;
            assert(mag(rung + 1) == (rung + 1) * pow2(0));
        }
    } else {
        let q = rung / (BINADE as nat);
        let s = rung % (BINADE as nat);
        assert(rung == b * q + s && 0 <= s < b) by (nonlinear_arith)
            requires
                q == rung / b,
                s == rung % b,
                b > 0,
        ;
        if s + 1 < b {
            assert((rung + 1) / b == q && (rung + 1) % b == s + 1) by (nonlinear_arith)
                requires
                    rung == b * q + s,
                    0 <= s,
                    s + 1 < b,
            ;
            assert(mag(rung + 1) == (b + s + 1) * pow2(e));
            assert((b + s + 1) * pow2(e) == (b + s) * pow2(e) + pow2(e)) by (nonlinear_arith);
        } else {
            assert((rung + 1) / b == q + 1 && (rung + 1) % b == 0) by (nonlinear_arith)
                requires
                    rung == b * q + s,
                    s + 1 == b,
                    b > 0,
            ;
            lemma_pow2_unfold(e + 1);
            assert(mag(rung + 1) == b * (2 * pow2(e)));
            assert(b * (2 * pow2(e)) == (b + s) * pow2(e) + pow2(e)) by (nonlinear_arith)
                requires
                    s + 1 == b,
            ;
        }
    }
}

/// A higher rung is a larger magnitude.
pub proof fn lemma_mag_increasing(low: nat, high: nat)
    requires
        low < high,
    ensures
        mag(low) < mag(high),
    decreases high,
{
    lemma_step((high - 1) as nat);
    if low + 1 < high {
        lemma_mag_increasing(low, (high - 1) as nat);
    }
}

/// Only the lowest rung is zero.
pub proof fn lemma_positive(rung: nat)
    ensures
        mag(rung) == 0 <==> rung == 0,
{
    lemma2_to64();
    assert(0 * pow2(0) == 0);
    if rung > 0 {
        lemma_mag_increasing(0, rung);
    }
}

/// A quotient has one nearest rung.
pub proof fn lemma_nearest_unique(a: nat, b: nat, n: nat, d: nat)
    requires
        d > 0,
        nearest(a, n, d),
        nearest(b, n, d),
    ensures
        a == b,
{
    if a < b {
        lemma_none_above(a, b, n, d);
    } else if b < a {
        lemma_none_above(b, a, n, d);
    }
}

proof fn lemma_none_above(a: nat, b: nat, n: nat, d: nat)
    requires
        d > 0,
        a < b,
        nearest(a, n, d),
    ensures
        !nearest(b, n, d),
{
    let lower = mag(a) + mag(a + 1);
    let upper = mag((b - 1) as nat) + mag(b);
    if a + 1 < b {
        lemma_mag_increasing(a, (b - 1) as nat);
        lemma_mag_increasing(a + 1, b);
        assert(d * lower < d * upper) by (nonlinear_arith)
            requires
                lower < upper,
                d > 0,
        ;
    }
}

/// What is shown nearest is what the quotient rounds to.
pub proof fn lemma_round(rung: nat, n: nat, d: nat)
    requires
        d > 0,
        nearest(rung, n, d),
    ensures
        round(n, d) == rung,
{
    lemma_nearest_unique(rung, round(n, d), n, d);
}

proof fn lemma_no_root_above(a: nat, b: nat, n: nat)
    requires
        a < b,
        nearest_root(a, n),
    ensures
        !nearest_root(b, n),
{
    let lower = mag(a) + mag(a + 1);
    let upper = mag((b - 1) as nat) + mag(b);
    if a + 1 < b {
        lemma_mag_increasing(a, (b - 1) as nat);
        lemma_mag_increasing(a + 1, b);
        assert(lower * lower < upper * upper) by (nonlinear_arith)
            requires
                0 <= lower < upper,
        ;
    }
}

/// What is shown nearest to a root is what the root rounds to.
pub proof fn lemma_root(rung: nat, n: nat)
    requires
        nearest_root(rung, n),
    ensures
        root(n) == rung,
{
    if rung < root(n) {
        lemma_no_root_above(rung, root(n), n);
    } else if root(n) < rung {
        lemma_no_root_above(root(n), rung, n);
    }
}

/// A rung is a multiple of any power of two up to that of its exponent.
proof fn lemma_multiple(rung: nat, k: nat) -> (c: nat)
    requires
        k <= exponent(rung),
    ensures
        mag(rung) == c * pow2(k),
{
    let rest = (exponent(rung) - k) as nat;
    lemma_pow2_adds(rest, k);
    assert(significand(rung) * (pow2(rest) * pow2(k)) == (significand(rung) * pow2(rest)) * pow2(k))
        by (nonlinear_arith);
    significand(rung) * pow2(rest)
}

/// The rung nearest to `root * 2^h`, or to the middle of the step above it, is
/// the rung nearest to the square root that lies there.
pub proof fn lemma_nearest_root(rung: nat, s: nat, h: nat, exact: bool, n: nat)
    requires
        s >= 0x4000_0000_0000_0000,
        h <= 2000,
        ({
            let unit = pow2(h) * pow2(h);
            &&& s * s * unit <= n < (s + 1) * (s + 1) * unit
            &&& exact <==> n == s * s * unit
        }),
        exact ==> nearest(rung, s * pow2(h), 1),
        !exact ==> nearest(rung, (2 * s + 1) * pow2(h), 2),
    ensures
        nearest_root(rung, n),
{
    let p = pow2(h);
    lemma_pow2_pos(h);
    if exact {
        let v = 2 * (s * p);
        assert(4 * n == v * v) by (nonlinear_arith)
            requires
                n == s * s * (p * p),
                v == 2 * (s * p),
        ;
        if rung > 0 {
            let twice = mag((rung - 1) as nat) + mag(rung);
            assert(v > twice ==> v * v > twice * twice) by (nonlinear_arith)
                requires
                    v >= 0,
                    twice >= 0,
            ;
        }
        if rung < TOP {
            let twice = mag(rung) + mag(rung + 1);
            assert(v < twice ==> v * v < twice * twice) by (nonlinear_arith)
                requires
                    v >= 0,
                    twice >= 0,
            ;
        }
    } else {
        let v = (2 * s + 1) * p;
        lemma_root_exponent(rung, s, h);
        lemma_pow2_unfold(h + 1);
        let at = lemma_multiple(rung, h + 1);
        if rung > 0 {
            let c = lemma_multiple((rung - 1) as nat, h + 1) + at;
            let twice = mag((rung - 1) as nat) + mag(rung);
            assert(twice == 2 * c * p) by (nonlinear_arith)
                requires
                    twice == (c - at) * pow2(h + 1) + at * pow2(h + 1),
                    pow2(h + 1) == 2 * p,
            ;
            assert(c <= s) by (nonlinear_arith)
                requires
                    2 * v >= 2 * twice,
                    v == (2 * s + 1) * p,
                    twice == 2 * c * p,
                    p > 0,
            ;
            assert(4 * n > twice * twice) by (nonlinear_arith)
                requires
                    n > s * s * (p * p),
                    twice == 2 * c * p,
                    0 <= c <= s,
                    p > 0,
            {
                assert(twice * twice == 4 * (c * c * (p * p)));
                assert(c * c <= s * s);
                assert(c * c * (p * p) <= s * s * (p * p));
            }
        }
        if rung < TOP {
            let c = lemma_multiple(rung + 1, h + 1) + at;
            let twice = mag(rung) + mag(rung + 1);
            assert(twice == 2 * c * p) by (nonlinear_arith)
                requires
                    twice == (c - at) * pow2(h + 1) + at * pow2(h + 1),
                    pow2(h + 1) == 2 * p,
            ;
            assert(c >= s + 1) by (nonlinear_arith)
                requires
                    2 * v <= 2 * twice,
                    v == (2 * s + 1) * p,
                    twice == 2 * c * p,
                    p > 0,
            ;
            assert(4 * n < twice * twice) by (nonlinear_arith)
                requires
                    n < (s + 1) * (s + 1) * (p * p),
                    twice == 2 * c * p,
                    c >= s + 1,
                    p > 0,
            {
                assert(twice * twice == 4 * (c * c * (p * p)));
                assert(c * c >= (s + 1) * (s + 1));
                assert(c * c * (p * p) >= (s + 1) * (s + 1) * (p * p));
            }
        }
    }
}

/// A rung near `s * 2^h`, with `s` of 63 bits or more, has its last bit well
/// above `2^h`, and so have its neighbours.
proof fn lemma_root_exponent(rung: nat, s: nat, h: nat)
    requires
        s >= 0x4000_0000_0000_0000,
        h <= 2000,
        nearest(rung, (2 * s + 1) * pow2(h), 2),
    ensures
        exponent(rung) >= h + 1,
        exponent(rung + 1) >= h + 1,
        rung > 0 ==> exponent((rung - 1) as nat) >= h + 1,
{
    let b = BINADE as nat;
    let p = pow2(h);
    let e = exponent(rung);
    let f = pow2(e);
    lemma_pow2_pos(h);
    lemma_pow2_pos(e);
    lemma_step(rung);
    if rung < TOP && e < h + 2 {
        if e < h + 1 {
            lemma_pow2_strictly_increases(e, h + 1);
        }
        lemma_pow2_unfold(h + 1);
        let twice = mag(rung) + mag(rung + 1);
        assert(twice < 2 * (2 * b) * f + 1) by (nonlinear_arith)
            requires
                twice == 2 * (significand(rung) * f) + f,
                significand(rung) + 1 <= 2 * b,
                f > 0,
        ;
        assert(false) by (nonlinear_arith)
            requires
                twice < 2 * (2 * b) * f + 1,
                f <= 2 * p,
                p > 0,
                s >= 0x4000_0000_0000_0000,
                b == 0x10_0000_0000_0000,
                2 * ((2 * s + 1) * p) <= 2 * twice,
        ;
    }
    lemma_exponent_increases(rung);
    if rung == TOP {
        assert(e == 2046);
    }
    if rung > 0 {
        lemma_exponent_increases((rung - 1) as nat);
    }
}

/// The exponent grows by at most one from a rung to the next.
proof fn lemma_exponent_increases(rung: nat)
    ensures
        exponent(rung) <= exponent(rung + 1) <= exponent(rung) + 1,
{
}

/// The rung with significand `m` at exponent `q`; the significand may have run
/// over into the next binade.
proof fn lemma_mag_of(q: nat, m: nat)
    requires
        m <= 2 * BINADE,
        q == 0 || BINADE <= m,
    ensures
        mag(q * BINADE as nat + m) == m * pow2(q),
        exponent(q * BINADE as nat + m) == if m == 2 * BINADE { q + 1 } else { q },
{
    let b = BINADE as nat;
    let r = q * b + m;
    if m < b {
        assert(r == m);
    } else if m < 2 * b {
        assert(r / b == q + 1 && r % b == m - b) by (nonlinear_arith)
            requires
                r == q * b + m,
                b <= m < 2 * b,
        ;
        assert(exponent(r) == q);
    } else {
        assert(r / b == q + 2 && r % b == 0) by (nonlinear_arith)
            requires
                r == q * b + m,
                m == 2 * b,
                b > 0,
        ;
        lemma_pow2_unfold(q + 1);
        assert(mag(r) == b * (2 * pow2(q)));
        assert(b * (2 * pow2(q)) == m * pow2(q)) by (nonlinear_arith)
            requires
                m == 2 * b,
        ;
    }
}

/// Rounding to a whole significand at the right exponent is rounding to the
/// nearest rung.
pub proof fn lemma_nearest_significand(q: nat, m: nat, n: nat, d: nat)
    requires
        d > 0,
        q <= 2045,
        m <= 2 * BINADE,
        q > 0 ==> BINADE <= m && n >= d * (BINADE as nat * pow2(q)),
        2 * n > d * ((2 * m - 1) * pow2(q)) || (2 * n == d * ((2 * m - 1) * pow2(q)) && m % 2
            == 0),
        2 * n < d * ((2 * m + 1) * pow2(q)) || (2 * n == d * ((2 * m + 1) * pow2(q)) && m % 2
            == 0),
    ensures
        nearest(q * BINADE as nat + m, n, d),
{
    let b = BINADE as nat;
    let r = q * b + m;
    let p = pow2(q);
    lemma_pow2_pos(q);
    lemma_mag_of(q, m);
    lemma_step(r);
    assert(r <= TOP) by (nonlinear_arith)
        requires
            r == q * b + m,
            q <= 2045,
            m <= 2 * b,
            b == 0x10_0000_0000_0000,
            TOP == 0x7FF0_0000_0000_0000,
    ;
    assert(r % 2 == m % 2) by (nonlinear_arith)
        requires
            r == q * b + m,
            b == 0x10_0000_0000_0000,
    ;
    if r > 0 {
        let below = mag((r - 1) as nat);
        if m > 0 && (q == 0 || m > b) {
            lemma_mag_of(q, (m - 1) as nat);
            assert(below + mag(r) == (2 * m - 1) * p) by (nonlinear_arith)
                requires
                    below == (m - 1) * p,
                    mag(r) == m * p,
            ;
        } else {
            lemma_step((r - 1) as nat);
            assert(2 * n > d * (below + mag(r))) by (nonlinear_arith)
                requires
                    d > 0,
                    below < mag(r),
                    n >= d * mag(r),
            ;
        }
    }
    if r < TOP {
        let above = mag(r + 1);
        if m < 2 * b {
            assert(mag(r) + above == (2 * m + 1) * p) by (nonlinear_arith)
                requires
                    above == m * p + p,
                    mag(r) == m * p,
            ;
        } else {
            lemma_pow2_unfold(q + 1);
            assert(2 * n < d * (mag(r) + above)) by (nonlinear_arith)
                requires
                    d > 0,
                    p > 0,
                    above == m * p + 2 * p,
                    mag(r) == m * p,
                    2 * n <= d * ((2 * m + 1) * p),
            ;
        }
    }
}

/// A quotient of at least 2^1024 rounds to infinity.
pub proof fn lemma_nearest_top(q: nat, n: nat, d: nat)
    requires
        d > 0,
        q >= 2046,
        n >= d * (BINADE as nat * pow2(q)),
    ensures
        nearest(TOP as nat, n, d),
{
    let b = BINADE as nat;
    let top = TOP as nat;
    assert(top == 2046 * b + b);
    lemma_mag_of(2046, b);
    lemma_step((top - 1) as nat);
    if q > 2046 {
        lemma_pow2_strictly_increases(2046, q);
    }
    assert(2 * n > d * (mag((top - 1) as nat) + mag(top))) by (nonlinear_arith)
        requires
            d > 0,
            mag((top - 1) as nat) < mag(top),
            mag(top) == b * pow2(2046),
            pow2(2046) <= pow2(q),
            n >= d * (b * pow2(q)),
            b > 0,
    ;
}

/// Every quotient below a boundary has a nearest rung below it.
proof fn lemma_nearest_below(top: nat, n: nat, d: nat)
    requires
        d > 0,
        top <= TOP,
        top < TOP ==> 2 * n < d * (mag(top) + mag(top + 1)),
    ensures
        exists|rung: nat| nearest(rung, n, d),
    decreases top,
{
    if top == 0 {
        assert(nearest(0, n, d));
    } else {
        let below = (top - 1) as nat;
        let boundary = d * (mag(below) + mag(top));
        if 2 * n < boundary {
            lemma_nearest_below(below, n, d);
        } else if 2 * n > boundary || top % 2 == 0 {
            assert(nearest(top, n, d));
        } else {
            if below > 0 {
                let lower = mag((below - 1) as nat) + mag(below);
                let upper = mag(below) + mag(top);
                lemma_step((below - 1) as nat);
                lemma_step(below);
                assert(d * lower < d * upper) by (nonlinear_arith)
                    requires
                        lower < upper,
                        d > 0,
                ;
            }
            assert(nearest(below, n, d));
        }
    }
}

/// Every quotient has a nearest rung, and rounds to it.
pub proof fn lemma_rounds_to_nearest(n: nat, d: nat)
    requires
        d > 0,
    ensures
        nearest(round(n, d), n, d),
{
    lemma_nearest_below(TOP as nat, n, d);
}

/// Rounding keeps order.
pub proof fn lemma_round_monotone(n: nat, d: nat, m: nat, e: nat)
    requires
        d > 0,
        e > 0,
        n * e <= m * d,
    ensures
        round(n, d) <= round(m, e),
{
    lemma_rounds_to_nearest(n, d);
    lemma_rounds_to_nearest(m, e);
    let a = round(n, d);
    let b = round(m, e);
    if b < a {
        let upper = mag((a - 1) as nat) + mag(a);
        let lower = mag(b) + mag(b + 1);
        if b + 1 < a {
            lemma_mag_increasing(b, (a - 1) as nat);
            lemma_mag_increasing(b + 1, a);
            assert(false) by (nonlinear_arith)
                requires
                    lower < upper,
                    2 * n >= d * upper,
                    2 * m <= e * lower,
                    n * e <= m * d,
                    d > 0,
                    e > 0,
            {
                assert(2 * n * e >= (d * upper) * e);
                assert(2 * m * d <= (e * lower) * d);
                assert((d * upper) * e == upper * (d * e));
                assert((e * lower) * d == lower * (d * e));
                assert(d * e > 0);
                assert(lower * (d * e) < upper * (d * e));
            }
        } else {
            assert(lower == upper);
            assert(2 * n == d * upper && 2 * m == e * upper) by (nonlinear_arith)
                requires
                    2 * n >= d * upper,
                    2 * m <= e * upper,
                    n * e <= m * d,
                    d > 0,
                    e > 0,
            {
                assert((2 * n) * e >= (d * upper) * e);
                assert((2 * m) * d <= (e * upper) * d);
                assert((d * upper) * e == (e * upper) * d);
                assert((2 * n) * e <= (2 * m) * d);
                assert((2 * n) * e == (d * upper) * e);
                assert((2 * m) * d == (e * upper) * d);
            }
        }
    }
}

/// Equal quotients round alike.
pub proof fn lemma_round_equal(n: nat, d: nat, m: nat, e: nat)
    requires
        d > 0,
        e > 0,
        n * e == m * d,
    ensures
        round(n, d) == round(m, e),
{
    lemma_round_monotone(n, d, m, e);
    lemma_round_monotone(m, e, n, d);
}

/// A magnitude of the ladder stays as it is.
pub proof fn lemma_round_exact(rung: nat, d: nat)
    requires
        d > 0,
        rung <= TOP,
    ensures
        round(mag(rung) * d, d) == rung,
{
    let n = mag(rung) * d;
    if rung > 0 {
        lemma_step((rung - 1) as nat);
        let below = mag((rung - 1) as nat);
        assert(2 * n > d * (below + mag(rung))) by (nonlinear_arith)
            requires
                n == mag(rung) * d,
                below < mag(rung),
                d > 0,
        ;
    }
    if rung < TOP {
        lemma_step(rung);
        let above = mag(rung + 1);
        assert(2 * n < d * (mag(rung) + above)) by (nonlinear_arith)
            requires
                n == mag(rung) * d,
                above > mag(rung),
                d > 0,
        ;
    }
    lemma_round(rung, n, d);
}

/// A quotient that is at least a magnitude of the ladder rounds to one that is.
pub proof fn lemma_round_at_least(rung: nat, n: nat, d: nat)
    requires
        d > 0,
        rung <= TOP,
        mag(rung) * d <= n,
    ensures
        round(n, d) >= rung,
{
    lemma_round_exact(rung, 1);
    assert(mag(rung) * 1 == mag(rung) && n * 1 == n);
    lemma_round_monotone(mag(rung), 1, n, d);
}

/// A quotient that is at most a magnitude of the ladder rounds to one that is.
pub proof fn lemma_round_at_most(rung: nat, n: nat, d: nat)
    requires
        d > 0,
        rung <= TOP,
        n <= mag(rung) * d,
    ensures
        round(n, d) <= rung,
{
    lemma_round_exact(rung, 1);
    assert(mag(rung) * 1 == mag(rung) && n * 1 == n);
    lemma_round_monotone(n, d, mag(rung), 1);
}

/// A whole number of up to 53 bits, scaled by a power of two, is on the ladder.
pub proof fn lemma_on_ladder(i: nat, k: nat) -> (rung: nat)
    requires
        i <= 2 * BINADE,
        k <= 2044,
    ensures
        rung < TOP,
        mag(rung) == i * pow2(k),
    decreases k,
{
    if i == 0 {
        lemma_positive(0);
        assert(0 * pow2(k) == 0);
        0
    } else if k == 0 || i >= BINADE {
        lemma_mag_of(k, i);
        let b = BINADE as nat;
        assert(k * b + i < TOP) by (nonlinear_arith)
            requires
                k <= 2044,
                i <= 2 * b,
                b == 0x10_0000_0000_0000,
                TOP == 0x7FF0_0000_0000_0000,
        ;
        k * b + i
    } else {
        lemma_pow2_unfold(k);
        assert((2 * i) * pow2((k - 1) as nat) == i * (2 * pow2((k - 1) as nat)))
            by (nonlinear_arith);
        lemma_on_ladder(2 * i, (k - 1) as nat)
    }
}

/// Every root below a boundary has a nearest rung below it.
proof fn lemma_root_below(top: nat, n: nat)
    requires
        top <= TOP,
        top < TOP ==> 4 * n < (mag(top) + mag(top + 1)) * (mag(top) + mag(top + 1)),
    ensures
        exists|rung: nat| nearest_root(rung, n),
    decreases top,
{
    if top == 0 {
        assert(nearest_root(0, n));
    } else {
        let below = (top - 1) as nat;
        let twice = mag(below) + mag(top);
        if 4 * n < twice * twice {
            lemma_root_below(below, n);
        } else if 4 * n > twice * twice || top % 2 == 0 {
            assert(nearest_root(top, n));
        } else {
            if below > 0 {
                let lower = mag((below - 1) as nat) + mag(below);
                lemma_step((below - 1) as nat);
                lemma_step(below);
                assert(lower * lower < twice * twice) by (nonlinear_arith)
                    requires
                        0 <= lower < twice,
                ;
            }
            assert(nearest_root(below, n));
        }
    }
}

/// There is a nearest rung to every square root.
pub proof fn lemma_root_to_nearest(n: nat)
    ensures
        nearest_root(root(n), n),
{
    lemma_root_below(TOP as nat, n);
}

/// The root of a number that is at least the square of a magnitude of the ladder is at
/// least that magnitude.
pub proof fn lemma_root_at_least(rung: nat, n: nat)
    requires
        rung <= TOP,
        mag(rung) * mag(rung) <= n,
    ensures
        rung <= root(n) <= TOP,
{
    lemma_root_below(TOP as nat, n);
    let r = root(n);
    if r < rung {
        let twice = mag(r) + mag(r + 1);
        lemma_step(r);
        if r + 1 < rung {
            lemma_mag_increasing(r + 1, rung);
        }
        assert(twice * twice < 4 * n) by (nonlinear_arith)
            requires
                0 <= twice < 2 * mag(rung),
                mag(rung) * mag(rung) <= n,
        ;
    }
}

} // verus!
