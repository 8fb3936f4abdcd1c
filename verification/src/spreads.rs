//! What calibration makes of its samples, in exact numbers: the mean and the standard
//! deviation relative to it.
use crate::double::Datum;
use crate::exact;
use crate::ladder;
use crate::ladder::TOP;
use crate::laws;
use crate::profile;
use vstd::arithmetic::power2::*;
use vstd::prelude::*;

verus! {

/// The sum of numbers, exactly.
pub open spec fn sum(values: Seq<Datum>) -> real
    decreases values.len(),
{
    if values.len() == 0 {
        0 as real
    } else {
        sum(values.drop_last()) + exact::value(values.last())
    }
}

/// The sum of the squared distances from a number, exactly.
pub open spec fn squares(values: Seq<Datum>, center: real) -> real
    decreases values.len(),
{
    if values.len() == 0 {
        0 as real
    } else {
        squares(values.drop_last(), center) + (exact::value(values.last()) - center) * (
        exact::value(values.last()) - center)
    }
}

/// A finite number from zero to 2^400.
spec fn tame(x: Datum) -> bool {
    x matches Datum::Signed { negative, rung } && !negative && rung < TOP && exact::value(x)
        <= exact::ceiling()
}

spec fn all_tame(values: Seq<Datum>) -> bool {
    forall|i: int| 0 <= i < values.len() ==> tame(#[trigger] values[i])
}

/// `x` is near `y`, for a sum or a mean of so many numbers.
#[verifier::opaque]
spec fn summed(x: real, y: real, n: nat) -> bool {
    exact::size(x - y) <= 2 as real * (n as real) * exact::grain() * y + 2 as real * (n as real)
        * exact::speck()
}

/// `x`, so many times, is near `y`.
#[verifier::opaque]
spec fn shared(x: real, y: real, n: nat) -> bool {
    exact::size(x * n as real - y) <= 4 as real * (n as real) * exact::grain() * y + 4 as real * (
    n as real) * exact::speck()
}

/// `x` is a sum of `n` tame numbers that come to `total`.
#[verifier::opaque]
spec fn totalled(x: Datum, total: real, n: nat) -> bool {
    &&& x.finite()
    &&& !(x->negative)
    &&& exact::value(x) >= 0 as real
    &&& 0 as real <= total
    &&& total <= n as real * exact::ceiling()
    &&& summed(exact::value(x), total, n)
}

/// `x` is the mean of `n` tame numbers that come to `total`.
#[verifier::opaque]
spec fn averaged(x: Datum, total: real, n: nat) -> bool {
    &&& x.finite()
    &&& !(x->negative)
    &&& exact::value(x) >= 0 as real
    &&& 0 as real <= total
    &&& shared(exact::value(x), total, n)
}

/// `q` is `x` over `n`.
#[verifier::opaque]
spec fn quotient(q: real, x: real, n: real) -> bool {
    q * n == x
}

/// Products grow with their factors.
proof fn lemma_scaled(a: real, b: real, c: real)
    requires
        a <= b,
        c >= 0 as real,
    ensures
        a * c <= b * c,
{
    assert(a * c <= b * c) by (nonlinear_arith)
        requires
            a <= b,
            c >= 0 as real,
    ;
}

/// The size of a product with a number that is not negative.
proof fn lemma_size_scaled(a: real, c: real)
    requires
        c >= 0 as real,
    ensures
        exact::size(a * c) == exact::size(a) * c,
{
    if a < 0 as real {
        assert(a * c <= 0 as real) by (nonlinear_arith)
            requires
                a < 0 as real,
                c >= 0 as real,
        ;
        assert((0 as real - a) * c == 0 as real - a * c) by (nonlinear_arith);
    } else {
        assert(a * c >= 0 as real) by (nonlinear_arith)
            requires
                a >= 0 as real,
                c >= 0 as real,
        ;
    }
}

/// The constants, once more, for up to a million samples.
proof fn lemma_small(n: nat)
    requires
        1 <= n <= 0x10_0000,
    ensures
        exact::grain() > 0 as real,
        exact::speck() > 0 as real,
        exact::floor() > 0 as real,
        n as real * exact::grain() * 0x1_0000_0000 as real <= 1 as real,
        exact::grain() <= n as real * exact::grain(),
        (n as real) * (n as real) * exact::grain() * 0x1000 as real <= 1 as real,
        0x10_0000_0000_0000 as real * exact::grain() == 1 as real,
        exact::speck() <= exact::grain() * exact::floor(),
        0x1000_0000 as real * exact::ceiling() <= exact::limit(),
        exact::ceiling() >= 1 as real,
        exact::speck() <= exact::grain(),
        n as real * exact::speck() <= 1 as real,
        exact::floor() <= 1 as real,
        exact::speck() <= exact::grain() * (exact::floor() * exact::floor()),
        0x1000 as real * exact::speck() <= exact::grain() * exact::floor(),
        0x1000 as real * exact::grain() <= 1 as real,
{
    exact::lemma_constants();
    let g = exact::grain();
    let s = exact::speck();
    let f = exact::floor();
    let k = n as real;
    lemma_scaled(1 as real, k, g);
    lemma_scaled(k, 0x10_0000 as real, g);
    lemma_scaled(k, 0x10_0000 as real, k);
    lemma_scaled(k * k, 0x100_0000_0000 as real, g);
    let w = 0x10_0000_0000_0000 as real;
    lemma_scaled(s * w, f * f, g);
    assert((s * w) * g == s * (g * w) && (f * f) * g == g * (f * f)) by (nonlinear_arith);
    assert(s * (g * w) == s) by (nonlinear_arith)
        requires
            g * w == 1 as real,
    ;
    lemma_scaled(f, g, f);
    assert(s <= g * f);
    assert(g <= 1 as real && f <= 1 as real);
    lemma_scaled(f, 1 as real, g);
    assert(g * f == f * g) by (nonlinear_arith);
    assert(s <= g);
    lemma_scaled(s, g, k);
    assert(k * s == s * k && k * g == g * k) by (nonlinear_arith);
    lemma_pow2_adds(28, 400);
    lemma2_to64();
    lemma_pow2_strictly_increases(428, 1000);
    assert((pow2(28) * pow2(400)) as real == 0x1000_0000 as real * exact::ceiling())
        by (nonlinear_arith)
        requires
            exact::ceiling() == pow2(400) as real,
            pow2(28) as real == 0x1000_0000 as real,
    ;
}

/// One more summand: rounding adds up.
proof fn lemma_sum_step(t: real, total: real, v: real, next: real, n: nat)
    requires
        n < 0x10_0000,
        summed(t, total, n),
        exact::rounds(next, t + v),
        v >= 0 as real,
        total >= 0 as real,
        t >= 0 as real,
    ensures
        summed(next, total + v, n + 1),
{
    reveal(summed);
    let k = n as real;
    let g = exact::grain();
    let s = exact::speck();
    lemma_small(n + 1);
    assert((n + 1) as real == k + 1 as real);
    let kg = k * g;
    let ks = k * s;
    let all = total + v;
    let x = t + v;
    let part = kg * all;
    let bit = g * all;
    assert((k + 1 as real) * g == kg + g) by (nonlinear_arith)
        requires
            kg == k * g,
    ;
    lemma_scaled(0 as real, k, g);
    assert(0 as real * g == 0 as real) by (nonlinear_arith);
    // How far the sum so far is off.
    lemma_scaled(total, all, kg);
    assert(2 as real * k * g * total == 2 as real * (total * kg)) by (nonlinear_arith)
        requires
            kg == k * g,
    ;
    assert(all * kg == part) by (nonlinear_arith)
        requires
            part == kg * all,
    ;
    assert(2 as real * k * s == 2 as real * ks) by (nonlinear_arith)
        requires
            ks == k * s,
    ;
    assert(exact::size(x - all) <= 2 as real * part + 2 as real * ks);
    lemma_scaled(2 as real * kg, 1 as real, all);
    assert((2 as real * kg) * all == 2 as real * part) by (nonlinear_arith)
        requires
            part == kg * all,
    ;
    assert(x <= 2 as real * all + 2 as real * ks);
    // How far the rounding takes it.
    lemma_scaled(x, 2 as real * all + 2 as real * ks, g);
    assert((2 as real * all + 2 as real * ks) * g == 2 as real * bit + 2 as real * (ks * g))
        by (nonlinear_arith)
        requires
            bit == g * all,
    ;
    assert(ks * g == kg * s) by (nonlinear_arith)
        requires
            ks == k * s,
            kg == k * g,
    ;
    lemma_scaled(2 as real * kg, 1 as real, s);
    assert((2 as real * kg) * s == 2 as real * (kg * s)) by (nonlinear_arith);
    assert(exact::size(x) == x);
    assert(exact::size(next - x) <= 2 as real * bit + 2 as real * s);
    assert(2 as real * (k + 1 as real) * g * all == 2 as real * part + 2 as real * bit)
        by (nonlinear_arith)
        requires
            kg == k * g,
            part == kg * all,
            bit == g * all,
    ;
    assert(2 as real * (k + 1 as real) * s == 2 as real * ks + 2 as real * s) by (nonlinear_arith)
        requires
            ks == k * s,
    ;
}

/// A sum near the exact one does not overflow.
proof fn lemma_sum_in_range(t: real, total: real, n: nat)
    requires
        n < 0x10_0000,
        summed(t, total, n),
        0 as real <= total,
        total <= n as real * exact::ceiling(),
    ensures
        t <= 0x1000_0000 as real * exact::ceiling(),
        exact::ceiling() <= 0x1000_0000 as real * exact::ceiling(),
        0x1000_0000 as real * exact::ceiling() <= exact::limit(),
{
    reveal(summed);
    let k = n as real;
    let g = exact::grain();
    let s = exact::speck();
    let c = exact::ceiling();
    lemma_small(n + 1);
    let kg = k * g;
    assert(kg <= (k + 1 as real) * g) by (nonlinear_arith)
        requires
            kg == k * g,
            g > 0 as real,
    ;
    lemma_scaled(kg, 1 as real, total);
    assert(2 as real * k * g * total == 2 as real * (kg * total)) by (nonlinear_arith)
        requires
            kg == k * g,
    ;
    let ks = k * s;
    assert(ks <= (k + 1 as real) * s) by (nonlinear_arith)
        requires
            ks == k * s,
            s > 0 as real,
    ;
    assert(2 as real * k * s == 2 as real * ks) by (nonlinear_arith)
        requires
            ks == k * s,
    ;
    lemma_scaled(k, 0x10_0000 as real, c);
    assert(t <= 3 as real * total + 2 as real);
}

/// One more number added.
proof fn lemma_total_step(x: Datum, total: real, n: nat, y: Datum)
    requires
        totalled(x, total, n),
        n < 0x10_0000,
        tame(y),
    ensures
        totalled(x.plus(y), total + exact::value(y), n + 1),
{
    reveal(totalled);
    exact::lemma_units(x);
    exact::lemma_units(y);
    ladder::lemma_positive(0);
    let v = exact::value(y);
    let t = exact::value(x);
    let c = exact::ceiling();
    assert(v >= 0 as real) by {
        if let Datum::Signed { rung, .. } = y {
            ladder::lemma_positive(rung);
        }
    }
    lemma_sum_in_range(t, total, n);
    exact::lemma_plus_exact(x, y);
    let next = x.plus(y);
    exact::lemma_units(next);
    lemma_sum_step(t, total, v, exact::value(next), n);
    let k = n as real;
    assert((n + 1) as real == k + 1 as real);
    assert((k + 1 as real) * c == k * c + c) by (nonlinear_arith);
    if let Datum::Signed { rung, .. } = next {
        ladder::lemma_positive(rung);
    }
}

/// Nothing added up.
proof fn lemma_total_of_nothing()
    ensures
        totalled(Datum::zero(false), 0 as real, 0),
{
    reveal(totalled);
    reveal(summed);
    ladder::lemma_positive(0);
    exact::lemma_units(Datum::zero(false));
    let (c, g, s) = (exact::ceiling(), exact::grain(), exact::speck());
    assert(0 as real * c == 0 as real && 2 as real * 0 as real * g * 0 as real + 2 as real
        * 0 as real * s == 0 as real) by (nonlinear_arith);
}

/// A sum in doubles is near the exact sum.
proof fn lemma_total_exact(values: Seq<Datum>)
    requires
        all_tame(values),
        values.len() <= 0x10_0000,
    ensures
        totalled(profile::total(values), sum(values), values.len()),
    decreases values.len(),
{
    if values.len() == 0 {
        lemma_total_of_nothing();
    } else {
        let earlier = values.drop_last();
        assert forall|i: int| 0 <= i < earlier.len() implies tame(#[trigger] earlier[i]) by {
            assert(earlier[i] == values[i]);
        }
        lemma_total_exact(earlier);
        assert(tame(values[values.len() - 1]));
        lemma_total_step(profile::total(earlier), sum(earlier), earlier.len(), values.last());
    }
}

/// Dividing a sum by the number of summands: rounding stays in proportion.
proof fn lemma_mean_step(t: real, total: real, v: real, q: real, k: nat)
    requires
        1 <= k <= 0x10_0000,
        summed(t, total, k),
        0 as real <= total,
        0 as real <= t,
        quotient(q, t, k as real),
        q >= 0 as real,
        exact::rounds(v, q),
    ensures
        shared(v, total, k),
{
    reveal(summed);
    reveal(shared);
    reveal(quotient);
    let n = k as real;
    let (g, s) = (exact::grain(), exact::speck());
    lemma_small(k);
    let ng = n * g;
    let ns = n * s;
    let part = ng * total;
    assert(2 as real * n * g * total == 2 as real * part && 4 as real * n * g * total == 4 as real
        * part) by (nonlinear_arith)
        requires
            part == ng * total,
            ng == n * g,
    ;
    assert(2 as real * n * s == 2 as real * ns && 4 as real * n * s == 4 as real * ns)
        by (nonlinear_arith)
        requires
            ns == n * s,
    ;
    lemma_scaled(ng, 1 as real / 0x1_0000_0000 as real, total);
    lemma_scaled(0 as real, ng, total);
    assert(0 as real * total == 0 as real) by (nonlinear_arith);
    assert(2 as real * part <= total) by (nonlinear_arith)
        requires
            part <= 1 as real / 0x1_0000_0000 as real * total,
            total >= 0 as real,
    ;
    assert(t <= 2 as real * total + 2 as real * ns);
    let off = v - q;
    let gt = g * t;
    lemma_scaled(exact::size(off), q * g + s, n);
    lemma_size_scaled(off, n);
    assert((q * g + s) * n == g * (q * n) + n * s) by (nonlinear_arith);
    assert(exact::size(off * n) <= gt + ns);
    assert(v * n - t == off * n) by (nonlinear_arith)
        requires
            off == v - q,
            q * n == t,
    ;
    lemma_scaled(t, 2 as real * total + 2 as real * ns, g);
    assert(t * g == gt) by (nonlinear_arith)
        requires
            gt == g * t,
    ;
    assert((2 as real * total + 2 as real * ns) * g == 2 as real * (g * total) + 2 as real * (g
        * ns)) by (nonlinear_arith);
    lemma_scaled(g, ng, total);
    assert(ns > 0 as real) by (nonlinear_arith)
        requires
            ns == n * s,
            n >= 1 as real,
            s > 0 as real,
    ;
    assert(4 as real * g <= 1 as real);
    lemma_scaled(4 as real * g, 1 as real, ns);
    assert((4 as real * g) * ns == 4 as real * (g * ns)) by (nonlinear_arith);
}

/// A sum near the exact one is within the limit.
proof fn lemma_mean_in_range(t: real, total: real, n: nat)
    requires
        1 <= n <= 0x10_0000,
        summed(t, total, n),
        0 as real <= total,
        total <= n as real * exact::ceiling(),
    ensures
        t <= exact::limit(),
{
    reveal(summed);
    let k = n as real;
    let g = exact::grain();
    let s = exact::speck();
    let c = exact::ceiling();
    lemma_small(n);
    let kg = k * g;
    lemma_scaled(kg, 1 as real, total);
    assert(2 as real * k * g * total == 2 as real * (kg * total)) by (nonlinear_arith)
        requires
            kg == k * g,
    ;
    let ks = k * s;
    assert(2 as real * k * s == 2 as real * ks) by (nonlinear_arith)
        requires
            ks == k * s,
    ;
    lemma_scaled(k, 0x10_0000 as real, c);
    assert(t <= 3 as real * total + 2 as real);
}

/// A quotient of numbers that are not negative.
proof fn lemma_quotient(x: Datum, y: Datum) -> (q: real)
    requires
        x.finite(),
        !(x->negative),
        y.finite(),
        !(y->negative),
        0 as real <= exact::value(x) <= exact::limit(),
        exact::value(y) >= 1 as real,
    ensures
        x.over(y).finite(),
        !(x.over(y)->negative),
        exact::value(x.over(y)) >= 0 as real,
        quotient(q, exact::value(x), exact::value(y)),
        q >= 0 as real,
        exact::rounds(exact::value(x.over(y)), q),
{
    let (t, n) = (exact::value(x), exact::value(y));
    let q = t / n;
    assert(q * n == t) by (nonlinear_arith)
        requires
            q == t / n,
            n >= 1 as real,
    ;
    assert(q >= 0 as real) by (nonlinear_arith)
        requires
            q * n == t,
            n >= 1 as real,
            t >= 0 as real,
    ;
    lemma_scaled(1 as real, n, q);
    assert(1 as real * q == q && n * q == q * n) by (nonlinear_arith);
    reveal(quotient);
    exact::lemma_over_exact(x, y);
    exact::lemma_units(x.over(y));
    q
}

/// A count as a double.
proof fn lemma_count(n: nat)
    requires
        1 <= n <= 0x10_0000,
    ensures
        Datum::whole(n as int).finite(),
        !(Datum::whole(n as int)->negative),
        exact::value(Datum::whole(n as int)) == n as real,
        n as real >= 1 as real,
{
    exact::lemma_whole_exact(n as int);
}

/// The mean, from the sum.
proof fn lemma_mean_of_total(x: Datum, n: nat, total: real)
    requires
        1 <= n <= 0x10_0000,
        totalled(x, total, n),
    ensures
        averaged(x.over(Datum::whole(n as int)), total, n),
{
    reveal(totalled);
    reveal(averaged);
    let y = Datum::whole(n as int);
    lemma_count(n);
    lemma_mean_in_range(exact::value(x), total, n);
    let q = lemma_quotient(x, y);
    lemma_mean_step(exact::value(x), total, exact::value(x.over(y)), q, n);
}

/// A mean in doubles, times the number of values, is near the exact sum.
proof fn lemma_mean_exact(values: Seq<Datum>)
    requires
        all_tame(values),
        1 <= values.len() <= 0x10_0000,
    ensures
        averaged(profile::mean(values), sum(values), values.len()),
{
    lemma_total_exact(values);
    lemma_mean_of_total(profile::total(values), values.len(), sum(values));
}

/// What is not larger in the same proportion is not larger.
proof fn lemma_unscaled(a: real, b: real, c: real)
    requires
        a * c <= b * c,
        c > 0 as real,
    ensures
        a <= b,
{
    if b < a {
        assert(b * c < a * c) by (nonlinear_arith)
            requires
                b < a,
                c > 0 as real,
        ;
    }
}

/// The size of a product.
proof fn lemma_size_product(a: real, b: real)
    ensures
        exact::size(a * b) == exact::size(a) * exact::size(b),
{
    lemma_size_scaled(a, exact::size(b));
    if b < 0 as real {
        assert(a * (0 as real - b) == 0 as real - a * b) by (nonlinear_arith);
    }
}

/// A mean in doubles is near the exact mean `mu`: `z` is the exact sum.
proof fn lemma_center(m: real, mu: real, z: real, n: nat)
    requires
        1 <= n <= 0x10_0000,
        shared(m, z, n),
        mu * n as real == z,
        mu >= exact::floor(),
    ensures
        exact::size(m - mu) <= 5 as real * (exact::grain() * z),
        mu <= z,
        2 as real * m >= mu,
        m <= 2 as real * mu,
{
    reveal(shared);
    lemma_small(n);
    let k = n as real;
    let (g, s, f) = (exact::grain(), exact::speck(), exact::floor());
    let u = g * z;
    assert(4 as real * k * g * z == (4 as real * u) * k) by (nonlinear_arith)
        requires
            u == g * z,
    ;
    assert(4 as real * k * s == (4 as real * s) * k) by (nonlinear_arith);
    assert(m * k - z == (m - mu) * k) by (nonlinear_arith)
        requires
            mu * k == z,
    ;
    assert((4 as real * u) * k + (4 as real * s) * k == (4 as real * u + 4 as real * s) * k)
        by (nonlinear_arith);
    lemma_size_scaled(m - mu, k);
    lemma_unscaled(exact::size(m - mu), 4 as real * u + 4 as real * s, k);
    lemma_scaled(1 as real, k, mu);
    assert(1 as real * mu == mu && k * mu == mu * k) by (nonlinear_arith);
    lemma_scaled(f, z, g);
    assert(f * g == g * f && z * g == g * z) by (nonlinear_arith);
    assert(4 as real * s <= u);
    // In parts of the mean.
    let kg = k * g;
    assert(u == kg * mu) by (nonlinear_arith)
        requires
            u == g * z,
            mu * k == z,
            kg == k * g,
    ;
    lemma_scaled(10 as real * kg, 1 as real, mu);
    assert((10 as real * kg) * mu == 10 as real * (kg * mu)) by (nonlinear_arith);
}

/// A distance from the mean in doubles, against the exact one.
proof fn lemma_distance(a: real, m: real, mu: real, z: real, d: real)
    requires
        0 as real <= a <= z,
        exact::size(m - mu) <= 5 as real * (exact::grain() * z),
        exact::floor() <= mu <= z,
        exact::rounds(d, a - m),
    ensures
        exact::size(d - (a - mu)) <= 7 as real * (exact::grain() * z),
        exact::size(a - mu) <= z,
{
    lemma_small(1);
    let (g, s, f) = (exact::grain(), exact::speck(), exact::floor());
    let u = g * z;
    lemma_scaled(f, z, g);
    assert(f * g == g * f && z * g == g * z) by (nonlinear_arith);
    assert(0x1000 as real * s <= u);
    lemma_scaled(exact::size(a - m), z + 5 as real * u, g);
    assert((z + 5 as real * u) * g == u + 5 as real * (u * g)) by (nonlinear_arith)
        requires
            u == g * z,
    ;
    lemma_scaled(0x1000 as real * g, 1 as real, u);
    assert((0x1000 as real * g) * u == 0x1000 as real * (u * g)) by (nonlinear_arith);
}

/// A square in doubles of a number near `e`, against the square of `e`.
proof fn lemma_square(q: real, d: real, e: real, delta: real)
    requires
        exact::rounds(q, d * d),
        exact::size(d - e) <= delta,
    ensures
        exact::size(q - e * e) <= 2 as real * (delta * (2 as real * exact::size(e) + delta))
            + exact::grain() * (e * e) + exact::speck(),
{
    lemma_small(1);
    let g = exact::grain();
    let reach = 2 as real * exact::size(e) + delta;
    let b = delta * reach;
    assert(d * d - e * e == (d - e) * (d + e)) by (nonlinear_arith);
    lemma_size_product(d - e, d + e);
    lemma_scaled(exact::size(d - e), delta, exact::size(d + e));
    lemma_scaled(exact::size(d + e), reach, delta);
    assert(exact::size(d + e) * delta == delta * exact::size(d + e) && reach * delta == b)
        by (nonlinear_arith)
        requires
            b == delta * reach,
    ;
    assert(exact::size(d * d - e * e) <= b);
    assert(d * d >= 0 as real) by (nonlinear_arith);
    lemma_scaled(d * d, e * e + b, g);
    assert((e * e + b) * g == g * (e * e) + g * b) by (nonlinear_arith);
    lemma_scaled(g, 1 as real, b);
}

/// One squared distance: off by less than forty parts in 2^52 of the squared sum.
proof fn lemma_term(q: real, d: real, e: real, z: real)
    requires
        exact::rounds(q, d * d),
        exact::size(d - e) <= 7 as real * (exact::grain() * z),
        exact::size(e) <= z,
        z >= exact::floor(),
    ensures
        exact::size(q - e * e) <= 40 as real * (exact::grain() * (z * z)),
{
    lemma_small(1);
    let (g, s, f) = (exact::grain(), exact::speck(), exact::floor());
    let u = g * z;
    let delta = 7 as real * u;
    lemma_scaled(0 as real, g, z);
    assert(0 as real * z == 0 as real) by (nonlinear_arith);
    lemma_square(q, d, e, delta);
    let zz = z * z;
    let gzz = g * zz;
    // The cross term.
    let reach = 2 as real * exact::size(e) + delta;
    lemma_scaled(0x1000 as real * g, 1 as real, z);
    assert((0x1000 as real * g) * z == 0x1000 as real * u) by (nonlinear_arith)
        requires
            u == g * z,
    ;
    assert(reach <= 5 as real / 2 as real * z);
    lemma_scaled(reach, 5 as real / 2 as real * z, delta);
    assert((5 as real / 2 as real * z) * delta == 35 as real / 2 as real * gzz) by (nonlinear_arith)
        requires
            delta == 7 as real * u,
            u == g * z,
            gzz == g * zz,
            zz == z * z,
    ;
    assert(reach * delta == delta * reach) by (nonlinear_arith);
    // The square.
    let ee = e * e;
    lemma_size_product(e, e);
    lemma_scaled(exact::size(e), z, exact::size(e));
    lemma_scaled(exact::size(e), z, z);
    assert(z * exact::size(e) == exact::size(e) * z) by (nonlinear_arith);
    assert(ee >= 0 as real) by (nonlinear_arith)
        requires
            ee == e * e,
    ;
    assert(ee <= zz);
    lemma_scaled(ee, zz, g);
    assert(ee * g == g * ee && zz * g == gzz) by (nonlinear_arith)
        requires
            gzz == g * zz,
    ;
    // The smallest double.
    lemma_scaled(f, z, f);
    lemma_scaled(f, z, z);
    assert(z * f == f * z) by (nonlinear_arith);
    lemma_scaled(f * f, zz, g);
    assert((f * f) * g == g * (f * f)) by (nonlinear_arith);
}

/// `q` is the square of a distance `e`, among numbers that come to `z`.
#[verifier::opaque]
spec fn squared(q: Datum, e: real, z: real) -> bool {
    &&& tame(q)
    &&& exact::size(exact::value(q) - e * e) <= 40 as real * (exact::grain() * (z * z))
}

/// Sums of a size that can be computed with.
#[verifier::opaque]
spec fn workable(z: real) -> bool {
    &&& exact::floor() <= z
    &&& 4 as real * z <= exact::ceiling()
    &&& 4 as real * (z * z) <= exact::ceiling()
}

/// A square that is near that of a number of at most `z`.
proof fn lemma_square_in_range(d: real, e: real, z: real)
    requires
        workable(z),
        exact::size(d - e) <= 7 as real * (exact::grain() * z),
        exact::size(e) <= z,
    ensures
        exact::size(d * d) <= exact::limit(),
{
    reveal(workable);
    lemma_small(1);
    let g = exact::grain();
    let x = exact::size(d);
    lemma_scaled(0x1000 as real * g, 1 as real, z);
    assert((0x1000 as real * g) * z == 0x1000 as real * (g * z)) by (nonlinear_arith);
    assert(x <= 2 as real * z);
    lemma_scaled(x, 2 as real * z, x);
    lemma_scaled(x, 2 as real * z, 2 as real * z);
    assert((2 as real * z) * x == x * (2 as real * z)) by (nonlinear_arith);
    assert((2 as real * z) * (2 as real * z) == 4 as real * (z * z)) by (nonlinear_arith);
    lemma_size_product(d, d);
}

/// A square that is near that of a number of at most `z`, once rounded.
proof fn lemma_square_is_tame(q: real, e: real, z: real)
    requires
        workable(z),
        exact::size(q - e * e) <= 40 as real * (exact::grain() * (z * z)),
        exact::size(e) <= z,
    ensures
        q <= exact::ceiling(),
{
    reveal(workable);
    lemma_small(1);
    let g = exact::grain();
    let x = exact::size(e);
    lemma_scaled(x, z, x);
    lemma_scaled(x, z, z);
    assert(z * x == x * z) by (nonlinear_arith);
    lemma_size_product(e, e);
    assert(z * z >= 0 as real) by (nonlinear_arith);
    lemma_scaled(0x1000 as real * g, 1 as real, z * z);
    assert((0x1000 as real * g) * (z * z) == 0x1000 as real * (g * (z * z))) by (nonlinear_arith);
}

/// One squared distance.
proof fn lemma_one_square(v: Datum, c: Datum, mu: real, z: real)
    requires
        tame(v),
        exact::value(v) <= z,
        c.finite(),
        exact::size(exact::value(c) - mu) <= 5 as real * (exact::grain() * z),
        0 as real <= exact::value(c) <= 2 as real * mu,
        exact::floor() <= mu <= z,
        workable(z),
    ensures
        squared(v.minus(c).times(v.minus(c)), exact::value(v) - mu, z),
        exact::value(v) >= 0 as real,
{
    reveal(squared);
    let (a, m) = (exact::value(v), exact::value(c));
    let e = a - mu;
    exact::lemma_units(v);
    if let Datum::Signed { rung, .. } = v {
        ladder::lemma_positive(0);
        ladder::lemma_positive(rung);
    }
    assert(2 as real * z <= exact::limit()) by {
        reveal(workable);
        lemma_small(1);
    }
    exact::lemma_minus_exact(v, c);
    let x = v.minus(c);
    let d = exact::value(x);
    lemma_distance(a, m, mu, z, d);
    lemma_square_in_range(d, e, z);
    exact::lemma_times_exact(x, x);
    let q = x.times(x);
    lemma_term(exact::value(q), d, e, z);
    lemma_square_is_tame(exact::value(q), e, z);
}

/// `total` is near `exact`, for squared distances of `n` of the numbers that come to `z`,
/// and bounded by their own sum `part`.
#[verifier::opaque]
spec fn spread_out(total: real, near: real, part: real, mu: real, z: real, n: nat) -> bool {
    &&& exact::size(total - near) <= 40 as real * (exact::grain() * (z * z)) * n as real
    &&& 0 as real <= near
    &&& near <= z * part + mu * mu * n as real
    &&& 0 as real <= part
}

proof fn lemma_spread_step(
    total: real,
    near: real,
    part: real,
    mu: real,
    z: real,
    n: nat,
    q: Datum,
    a: real,
)
    requires
        spread_out(total, near, part, mu, z, n),
        squared(q, a - mu, z),
        0 as real <= a <= z,
        mu >= 0 as real,
    ensures
        spread_out(
            total + exact::value(q),
            near + (a - mu) * (a - mu),
            part + a,
            mu,
            z,
            n + 1,
        ),
{
    reveal(spread_out);
    reveal(squared);
    let k = n as real;
    let e = a - mu;
    let t = 40 as real * (exact::grain() * (z * z));
    assert((n + 1) as real == k + 1 as real);
    assert(t * (k + 1 as real) == t * k + t && mu * mu * (k + 1 as real) == mu * mu * k + mu * mu)
        by (nonlinear_arith);
    assert(z * (part + a) == z * part + z * a) by (nonlinear_arith);
    assert(e * e >= 0 as real) by (nonlinear_arith);
    assert(e * e == a * a - 2 as real * (a * mu) + mu * mu) by (nonlinear_arith)
        requires
            e == a - mu,
    ;
    lemma_scaled(0 as real, a, mu);
    assert(0 as real * mu == 0 as real) by (nonlinear_arith);
    lemma_scaled(a, z, a);
}

proof fn lemma_spread_of_nothing(mu: real, z: real)
    ensures
        spread_out(0 as real, 0 as real, 0 as real, mu, z, 0),
{
    reveal(spread_out);
    let t = 40 as real * (exact::grain() * (z * z));
    assert(t * 0 as real == 0 as real && z * 0 as real == 0 as real && mu * mu * 0 as real
        == 0 as real) by (nonlinear_arith);
}

/// All squared distances, and their sum.
proof fn lemma_squares_exact(values: Seq<Datum>, c: Datum, mu: real, z: real)
    requires
        all_tame(values),
        forall|i: int| 0 <= i < values.len() ==> exact::value(#[trigger] values[i]) <= z,
        c.finite(),
        exact::size(exact::value(c) - mu) <= 5 as real * (exact::grain() * z),
        0 as real <= exact::value(c) <= 2 as real * mu,
        exact::floor() <= mu <= z,
        workable(z),
    ensures
        all_tame(profile::squared_distances(values, c)),
        spread_out(
            sum(profile::squared_distances(values, c)),
            squares(values, mu),
            sum(values),
            mu,
            z,
            values.len(),
        ),
    decreases values.len(),
{
    let all = profile::squared_distances(values, c);
    if values.len() == 0 {
        lemma_spread_of_nothing(mu, z);
    } else {
        let earlier = values.drop_last();
        let n = values.len() - 1;
        let v = values.last();
        assert forall|i: int| 0 <= i < earlier.len() implies tame(#[trigger] earlier[i])
            && exact::value(earlier[i]) <= z by {
            assert(earlier[i] == values[i]);
        }
        lemma_squares_exact(earlier, c, mu, z);
        assert(tame(values[n]) && exact::value(values[n]) <= z);
        lemma_one_square(v, c, mu, z);
        let before = profile::squared_distances(earlier, c);
        let q = v.minus(c).times(v.minus(c));
        assert(all.drop_last() =~= before);
        assert(all.last() == q);
        assert(exact::floor() > 0 as real) by {
            lemma_small(1);
        }
        lemma_spread_step(
            sum(before),
            squares(earlier, mu),
            sum(earlier),
            mu,
            z,
            earlier.len(),
            q,
            exact::value(v),
        );
        assert(tame(q)) by {
            reveal(squared);
        }
        assert forall|i: int| 0 <= i < all.len() implies tame(#[trigger] all[i]) by {
            if i < n {
                assert(all[i] == before[i]);
            }
        }
    }
}

/// What rounding can come to, for `n` numbers that come to `z`.
pub open spec fn room(n: nat, z: real) -> real {
    (n as real * exact::grain()) * (z * z)
}

/// The smallest double beside the sum.
proof fn lemma_room(n: nat, z: real)
    requires
        1 <= n <= 0x10_0000,
        z >= exact::floor(),
    ensures
        exact::grain() * (z * z) * n as real == room(n, z),
        exact::grain() * (z * z) <= room(n, z),
        exact::speck() * n as real <= room(n, z),
        exact::speck() * (z * z) <= room(n, z),
        0x10_0000 as real * room(n, z) <= z * z,
        z * z >= 0 as real,
        room(n, z) >= 0 as real,
{
    lemma_small(n);
    let k = n as real;
    let (g, s, f) = (exact::grain(), exact::speck(), exact::floor());
    let zz = z * z;
    let kg = k * g;
    assert(g * zz * k == kg * zz) by (nonlinear_arith)
        requires
            kg == k * g,
    ;
    assert(zz >= 0 as real) by (nonlinear_arith)
        requires
            zz == z * z,
    ;
    lemma_scaled(g, kg, zz);
    lemma_scaled(f, z, f);
    lemma_scaled(f, z, z);
    assert(z * f == f * z) by (nonlinear_arith);
    lemma_scaled(f * f, zz, g);
    assert((f * f) * g == g * (f * f) && zz * g == g * zz) by (nonlinear_arith);
    lemma_scaled(s, g * zz, k);
    lemma_scaled(s, g, zz);
    lemma_scaled(0x10_0000 as real * kg, 1 as real, zz);
    assert((0x10_0000 as real * kg) * zz == 0x10_0000 as real * (kg * zz)) by (nonlinear_arith);
    lemma_scaled(0 as real, kg, zz);
    assert(0 as real * zz == 0 as real) by (nonlinear_arith);
}

/// A mean of squared distances in doubles, against the exact ones.
proof fn lemma_variance(w: real, total: real, near: real, mu: real, z: real, n: nat)
    requires
        1 <= n <= 0x10_0000,
        shared(w, total, n),
        spread_out(total, near, z, mu, z, n),
        mu * n as real == z,
        exact::floor() <= mu <= z,
    ensures
        exact::size(w * n as real - near) <= 56 as real * room(n, z),
        0 as real <= near <= 2 as real * (z * z),
{
    reveal(shared);
    reveal(spread_out);
    lemma_small(n);
    lemma_room(n, z);
    let k = n as real;
    let (g, s) = (exact::grain(), exact::speck());
    let zz = z * z;
    let t = room(n, z);
    assert(40 as real * (g * zz) * k == 40 as real * (g * zz * k)) by (nonlinear_arith);
    assert(mu * mu * k == mu * z) by (nonlinear_arith)
        requires
            mu * k == z,
    ;
    lemma_scaled(mu, z, z);
    assert(total <= 3 as real * zz);
    let kg = k * g;
    lemma_scaled(total, 3 as real * zz, 4 as real * kg);
    assert(total * (4 as real * kg) == 4 as real * k * g * total) by (nonlinear_arith)
        requires
            kg == k * g,
    ;
    assert((3 as real * zz) * (4 as real * kg) == 12 as real * (kg * zz)) by (nonlinear_arith);
    assert(4 as real * k * s == 4 as real * (s * k)) by (nonlinear_arith);
}

/// How far the width times the mean is from the standard deviation.
proof fn lemma_width_times_mean(
    width: real,
    q: real,
    d: real,
    m: real,
    mu: real,
    z: real,
    n: nat,
)
    requires
        1 <= n <= 0x10_0000,
        mu * n as real == z,
        mu >= exact::floor(),
        exact::size(m - mu) <= 5 as real * (exact::grain() * z),
        mu <= 2 as real * m,
        q * m == d,
        q >= 0 as real,
        d >= 0 as real,
        exact::rounds(width, q),
    ensures
        exact::size(width * mu - d) <= 12 as real * (n as real * exact::grain()) * d
            + exact::speck() * mu,
{
    lemma_small(n);
    let k = n as real;
    let (g, s) = (exact::grain(), exact::speck());
    let h = k * g;
    assert(g * z == h * mu) by (nonlinear_arith)
        requires
            h == k * g,
            mu * k == z,
    ;
    assert(width * mu - d == (width - q) * mu + q * (mu - m)) by (nonlinear_arith)
        requires
            q * m == d,
    ;
    // The quotient times the mean.
    let qm = q * mu;
    lemma_scaled(mu, 2 as real * m, q);
    assert(mu * q == qm && (2 as real * m) * q == 2 as real * d) by (nonlinear_arith)
        requires
            qm == q * mu,
            q * m == d,
    ;
    lemma_size_scaled(width - q, mu);
    lemma_scaled(exact::size(width - q), q * g + s, mu);
    assert((q * g + s) * mu == g * qm + s * mu) by (nonlinear_arith)
        requires
            qm == q * mu,
    ;
    lemma_scaled(qm, 2 as real * d, g);
    assert(qm * g == g * qm && (2 as real * d) * g == 2 as real * (g * d)) by (nonlinear_arith);
    lemma_scaled(g, h, d);
    lemma_size_scaled(mu - m, q);
    assert((mu - m) * q == q * (mu - m)) by (nonlinear_arith);
    lemma_scaled(exact::size(mu - m), 5 as real * (h * mu), q);
    assert((5 as real * (h * mu)) * q == 5 as real * (h * qm)) by (nonlinear_arith)
        requires
            qm == q * mu,
    ;
    lemma_scaled(qm, 2 as real * d, h);
    assert(qm * h == h * qm && (2 as real * d) * h == 2 as real * (h * d)) by (nonlinear_arith);
    assert(12 as real * h * d == 12 as real * (h * d)) by (nonlinear_arith);
}

/// The square of a standard deviation, so many times, against the squared distances.
proof fn lemma_deviation_squared(d: real, w: real, near: real, z: real, n: nat)
    requires
        1 <= n <= 0x10_0000,
        z >= exact::floor(),
        w >= 0 as real,
        d >= 0 as real,
        exact::size(d * d - w) <= 4 as real * exact::grain() * w,
        exact::size(w * n as real - near) <= 56 as real * room(n, z),
        0 as real <= near <= 2 as real * (z * z),
    ensures
        exact::size(d * d * n as real - near) <= 68 as real * room(n, z),
        d * d * n as real <= 4 as real * (z * z),
        d <= 2 as real * z,
{
    lemma_small(n);
    lemma_room(n, z);
    let k = n as real;
    let g = exact::grain();
    let zz = z * z;
    let dd = d * d;
    let wk = w * k;
    assert(wk <= 3 as real * zz);
    lemma_size_scaled(dd - w, k);
    assert((dd - w) * k == dd * k - wk) by (nonlinear_arith)
        requires
            wk == w * k,
    ;
    lemma_scaled(exact::size(dd - w), 4 as real * g * w, k);
    assert((4 as real * g * w) * k == 4 as real * (g * wk)) by (nonlinear_arith)
        requires
            wk == w * k,
    ;
    lemma_scaled(wk, 3 as real * zz, g);
    assert(wk * g == g * wk && (3 as real * zz) * g == 3 as real * (g * zz)) by (nonlinear_arith);
    assert(dd >= 0 as real) by (nonlinear_arith)
        requires
            dd == d * d,
    ;
    lemma_scaled(1 as real, k, dd);
    assert(k * dd == dd * k && 1 as real * dd == dd) by (nonlinear_arith);
    if d > 2 as real * z {
        assert(d * d > 4 as real * (z * z)) by (nonlinear_arith)
            requires
                d > 2 as real * z,
                z > 0 as real,
        ;
    }
}

/// A product of two sums, so many times.
proof fn lemma_product_of_sums(d: real, mu: real, hd: real, sm: real, k: real)
    ensures
        ((3 as real * d + mu) * (12 as real * hd + sm)) * k == 36 as real * ((d * hd) * k)
            + 3 as real * ((d * sm) * k) + 12 as real * ((mu * hd) * k) + (mu * sm) * k,
{
    let a = 36 as real * (d * hd);
    let b = 3 as real * (d * sm);
    let c = 12 as real * (mu * hd);
    let e = mu * sm;
    assert((3 as real * d + mu) * (12 as real * hd + sm) == a + b + c + e) by (nonlinear_arith)
        requires
            a == 36 as real * (d * hd),
            b == 3 as real * (d * sm),
            c == 12 as real * (mu * hd),
            e == mu * sm,
    ;
    assert((a + b + c + e) * k == a * k + b * k + c * k + e * k) by (nonlinear_arith);
    assert(a * k == 36 as real * ((d * hd) * k)) by (nonlinear_arith)
        requires
            a == 36 as real * (d * hd),
    ;
    assert(b * k == 3 as real * ((d * sm) * k)) by (nonlinear_arith)
        requires
            b == 3 as real * (d * sm),
    ;
    assert(c * k == 12 as real * ((mu * hd) * k)) by (nonlinear_arith)
        requires
            c == 12 as real * (mu * hd),
    ;
}

/// The square of a width, in terms of the mean, against the squared distances.
proof fn lemma_width_squared(width: real, d: real, near: real, mu: real, z: real, n: nat)
    requires
        1 <= n <= 0x10_0000,
        mu * n as real == z,
        exact::floor() <= mu <= z,
        d >= 0 as real,
        exact::size(width * mu - d) <= 12 as real * (n as real * exact::grain()) * d
            + exact::speck() * mu,
        exact::size(d * d * n as real - near) <= 68 as real * room(n, z),
        d * d * n as real <= 4 as real * (z * z),
        d <= 2 as real * z,
    ensures
        exact::size((width * mu) * (width * mu) * n as real - near) <= 400 as real * room(n, z),
{
    lemma_small(n);
    lemma_room(n, z);
    let k = n as real;
    let (g, s) = (exact::grain(), exact::speck());
    let h = k * g;
    let zz = z * z;
    let b = width * mu;
    let eta = 12 as real * h * d + s * mu;
    // The room is small.
    lemma_scaled(12 as real * h, 1 as real, d);
    lemma_scaled(s, 1 as real, mu);
    assert(eta <= d + mu);
    assert(exact::size(b - d) <= eta);
    let reach = 3 as real * d + mu;
    assert(exact::size(b + d) <= reach);
    assert(b * b - d * d == (b - d) * (b + d)) by (nonlinear_arith);
    lemma_size_product(b - d, b + d);
    lemma_scaled(exact::size(b - d), eta, exact::size(b + d));
    lemma_scaled(exact::size(b + d), reach, eta);
    assert(exact::size(b + d) * eta == eta * exact::size(b + d)) by (nonlinear_arith);
    // So many times.
    let dd = d * d;
    lemma_size_scaled(b * b - dd, k);
    lemma_scaled(exact::size(b * b - dd), reach * eta, k);
    assert((b * b - dd) * k == b * b * k - dd * k) by (nonlinear_arith);
    let dz = d * z;
    let hd = h * d;
    let sm = s * mu;
    lemma_product_of_sums(d, mu, hd, sm, k);
    assert((d * hd) * k == h * (dd * k)) by (nonlinear_arith)
        requires
            hd == h * d,
            dd == d * d,
    ;
    assert((d * sm) * k == s * dz) by {
        assert((d * sm) * k == s * (d * (mu * k))) by (nonlinear_arith)
            requires
                sm == s * mu,
        ;
    }
    assert((mu * hd) * k == h * dz) by {
        assert((mu * hd) * k == h * (d * (mu * k))) by (nonlinear_arith)
            requires
                hd == h * d,
        ;
    }
    assert((mu * sm) * k == s * (mu * z)) by {
        assert((mu * sm) * k == s * (mu * (mu * k))) by (nonlinear_arith)
            requires
                sm == s * mu,
        ;
    }
    assert(eta == 12 as real * hd + sm) by {
        assert(12 as real * h * d == 12 as real * hd) by (nonlinear_arith)
            requires
                hd == h * d,
        ;
    }
    lemma_scaled(dd * k, 4 as real * zz, h);
    assert((dd * k) * h == h * (dd * k) && (4 as real * zz) * h == 4 as real * (h * zz))
        by (nonlinear_arith);
    lemma_scaled(d, 2 as real * z, z);
    assert((2 as real * z) * z == 2 as real * zz) by (nonlinear_arith)
        requires
            zz == z * z,
    ;
    lemma_scaled(dz, 2 as real * zz, h);
    assert(dz * h == h * dz && (2 as real * zz) * h == 2 as real * (h * zz)) by (nonlinear_arith);
    lemma_scaled(dz, 2 as real * zz, s);
    assert(dz * s == s * dz && (2 as real * zz) * s == 2 as real * (s * zz)) by (nonlinear_arith);
    lemma_scaled(mu, z, z);
    lemma_scaled(mu * z, zz, s);
    assert((mu * z) * s == s * (mu * z) && zz * s == s * zz) by (nonlinear_arith);
}

/// A standard deviation over a mean.
proof fn lemma_deviation_over_mean(x: Datum, c: Datum, mu: real, z: real, n: nat) -> (q: real)
    requires
        1 <= n <= 0x10_0000,
        x.finite(),
        0 as real <= exact::value(x) <= 2 as real * z,
        c.finite(),
        mu * n as real == z,
        mu >= exact::floor(),
        mu <= 2 as real * exact::value(c),
    ensures
        x.over(c).finite(),
        q * exact::value(c) == exact::value(x),
        q >= 0 as real,
        exact::rounds(exact::value(x.over(c)), q),
{
    lemma_small(n);
    let (d, m) = (exact::value(x), exact::value(c));
    let k = n as real;
    let q = d / m;
    assert(q * m == d) by (nonlinear_arith)
        requires
            q == d / m,
            m > 0 as real,
    ;
    assert(q >= 0 as real) by (nonlinear_arith)
        requires
            q * m == d,
            m > 0 as real,
            d >= 0 as real,
    ;
    // At most four times the number of samples.
    assert(q <= 4 as real * k) by {
        assert((4 as real * k) * m >= 2 as real * z) by {
            lemma_scaled(mu, 2 as real * m, 2 as real * k);
            assert(mu * (2 as real * k) == 2 as real * (mu * k)) by (nonlinear_arith);
            assert((2 as real * m) * (2 as real * k) == (4 as real * k) * m) by (nonlinear_arith);
        }
        lemma_unscaled(q, 4 as real * k, m);
    }
    exact::lemma_over_exact(x, c);
    q
}

/// The width from the variance and the mean.
#[verifier::opaque]
spec fn wide(x: Datum, c: Datum, near: real, mu: real, z: real, n: nat) -> bool {
    let dev = x.root();
    let width = exact::value(dev.over(c));
    &&& dev.finite()
    &&& if exact::value(dev) == 0 as real {
        near <= 400 as real * room(n, z)
    } else {
        exact::size((width * mu) * (width * mu) * n as real - near) <= 400 as real * room(n, z)
    }
}

proof fn lemma_wide(x: Datum, c: Datum, total: real, near: real, mu: real, z: real, n: nat)
    requires
        1 <= n <= 0x10_0000,
        averaged(x, total, n),
        averaged(c, z, n),
        spread_out(total, near, z, mu, z, n),
        mu * n as real == z,
        mu >= exact::floor(),
    ensures
        wide(x, c, near, mu, z, n),
{
    reveal(wide);
    reveal(averaged);
    let w = exact::value(x);
    let m = exact::value(c);
    lemma_center(m, mu, z, n);
    lemma_variance(w, total, near, mu, z, n);
    exact::lemma_root_exact(x);
    let dev = x.root();
    let d = exact::value(dev);
    lemma_deviation_squared(d, w, near, z, n);
    if d == 0 as real {
        lemma_room(n, z);
        assert(d * d * n as real == 0 as real) by (nonlinear_arith)
            requires
                d == 0 as real,
        ;
    } else {
        let q = lemma_deviation_over_mean(dev, c, mu, z, n);
        let width = exact::value(dev.over(c));
        lemma_width_times_mean(width, q, d, m, mu, z, n);
        lemma_width_squared(width, d, near, mu, z, n);
    }
}

/// Cycles over operations are tame.
proof fn lemma_plausible_is_tame(x: Datum)
    requires
        profile::plausible(x),
    ensures
        tame(x),
        0 as real <= exact::value(x) <= 0x1_0000_0000_0000_0000 as real,
{
    profile::lemma_plausible_is_finite(x);
    exact::lemma_units(x);
    exact::lemma_constants();
    lemma2_to64();
    lemma_pow2_strictly_increases(64, 400);
    ladder::lemma_positive(0);
    if let Datum::Signed { rung, .. } = x {
        ladder::lemma_positive(rung);
        let o = ladder::one() as real;
        let w = 0x1_0000_0000_0000_0000 as real;
        lemma_pow2_pos(1074);
        assert((pow2(64) * ladder::one()) as real == w * o) by (nonlinear_arith)
            requires
                pow2(64) as real == w,
                o == ladder::one() as real,
        ;
        lemma_unscaled(exact::value(x), w, o);
    }
}

/// Sums of cycles over operations: within bounds, and not below any summand.
proof fn lemma_sum_bounds(values: Seq<Datum>)
    requires
        profile::all_plausible(values),
    ensures
        all_tame(values),
        0 as real <= sum(values),
        sum(values) <= values.len() as real * 0x1_0000_0000_0000_0000 as real,
        forall|i: int| 0 <= i < values.len() ==> exact::value(#[trigger] values[i]) <= sum(values),
    decreases values.len(),
{
    if values.len() > 0 {
        let earlier = values.drop_last();
        let n = values.len() - 1;
        assert forall|i: int| 0 <= i < earlier.len() implies profile::plausible(
            #[trigger] earlier[i],
        ) by {
            assert(earlier[i] == values[i]);
        }
        lemma_sum_bounds(earlier);
        assert(profile::plausible(values[n]));
        lemma_plausible_is_tame(values.last());
        assert(values.len() as real == earlier.len() as real + 1 as real);
        assert forall|i: int| 0 <= i < values.len() implies tame(#[trigger] values[i])
            && exact::value(values[i]) <= sum(values) by {
            if i < n {
                assert(earlier[i] == values[i]);
                assert(tame(earlier[i]) && exact::value(earlier[i]) <= sum(earlier));
            }
        }
    }
}

/// Sums of cycles over operations can be computed with.
proof fn lemma_workable(z: real)
    requires
        exact::floor() <= z,
        z <= 0x10_0000 as real * 0x1_0000_0000_0000_0000 as real,
    ensures
        workable(z),
{
    reveal(workable);
    exact::lemma_constants();
    let b = 0x10_0000_0000_0000_0000_0000 as real;
    lemma2_to64();
    lemma_pow2_adds(64, 20);
    lemma_pow2_adds(84, 84);
    lemma_pow2_adds(2, 168);
    lemma_pow2_strictly_increases(170, 400);
    assert(pow2(84) as real == b);
    assert((pow2(84) * pow2(84)) as real == b * b) by (nonlinear_arith)
        requires
            pow2(84) as real == b,
    ;
    lemma_scaled(z, b, z);
    lemma_scaled(z, b, b);
    assert(b * z == z * b) by (nonlinear_arith);
    lemma_pow2_strictly_increases(84, 168);
}

/// The width that calibration files is the standard deviation relative to the mean, up to
/// rounding: its square, times that of the mean, is the mean of the squared distances.
/// Where no deviation shows, it is 0.01.
///
/// `mu` is the exact mean.
pub proof fn lemma_width_is_the_relative_deviation(values: Seq<Datum>, mu: real)
    requires
        profile::all_plausible(values),
        1 <= values.len() <= 0x10_0000,
        mu * values.len() as real == sum(values),
        mu >= exact::floor(),
    ensures
        ({
            let width = exact::value(profile::utilization(values).1);
            let n = values.len();
            ||| exact::size((width * mu) * (width * mu) * n as real - squares(values, mu))
                <= 400 as real * room(n, sum(values))
            ||| exact::near(width, 1 as real / 100 as real, 2) && squares(values, mu)
                <= 400 as real * room(n, sum(values))
        }),
        exact::value(profile::utilization(values).0) == 0 as real,
{
    let n = values.len();
    let z = sum(values);
    let c = profile::mean(values);
    let all = profile::squared_distances(values, c);
    let x = profile::mean(all);
    lemma_sum_bounds(values);
    lemma_mean_exact(values);
    lemma_mean_is_usable(c, mu, z, n);
    lemma_scaled(n as real, 0x10_0000 as real, 0x1_0000_0000_0000_0000 as real);
    lemma_workable(z);
    lemma_squares_exact(values, c, mu, z);
    lemma_mean_exact(all);
    lemma_wide(x, c, sum(all), squares(values, mu), mu, z, n);
    lemma_filed_width(values, squares(values, mu), mu, z);
}

/// What is known of a mean near the exact one.
proof fn lemma_mean_is_usable(c: Datum, mu: real, z: real, n: nat)
    requires
        1 <= n <= 0x10_0000,
        averaged(c, z, n),
        mu * n as real == z,
        mu >= exact::floor(),
    ensures
        c.finite(),
        exact::size(exact::value(c) - mu) <= 5 as real * (exact::grain() * z),
        0 as real <= exact::value(c) <= 2 as real * mu,
        mu <= z,
        exact::floor() <= z,
{
    reveal(averaged);
    lemma_center(exact::value(c), mu, z, n);
}

/// The width that is filed, from the variance and the mean.
proof fn lemma_filed_width(values: Seq<Datum>, near: real, mu: real, z: real)
    requires
        1 <= values.len(),
        wide(
            profile::mean(profile::squared_distances(values, profile::mean(values))),
            profile::mean(values),
            near,
            mu,
            z,
            values.len(),
        ),
    ensures
        ({
            let width = exact::value(profile::utilization(values).1);
            let n = values.len();
            ||| exact::size((width * mu) * (width * mu) * n as real - near) <= 400 as real * room(
                n,
                z,
            )
            ||| exact::near(width, 1 as real / 100 as real, 2) && near <= 400 as real * room(n, z)
        }),
        exact::value(profile::utilization(values).0) == 0 as real,
{
    reveal(wide);
    lemma_default_width();
    let dev = profile::standard_deviation(values);
    exact::lemma_units(dev);
    assert(dev.equal(Datum::zero(false)) <==> exact::value(dev) == 0 as real);
}

/// The width without any deviation.
proof fn lemma_default_width()
    ensures
        exact::near(exact::value(Datum::ratio(1, 100)), 1 as real / 100 as real, 2),
        exact::value(Datum::zero(false)) == 0 as real,
        Datum::zero(false).units() == 0,
{
    ladder::lemma_positive(0);
    exact::lemma_units(Datum::zero(false));
    exact::lemma_ratio_exact(1, 100);
    exact::lemma_constants();
    let f = exact::floor();
    let g = exact::grain();
    lemma_scaled(f, g, f);
    lemma_scaled(f, g, g);
    assert(g * f == f * g) by (nonlinear_arith);
    lemma_scaled(100 as real * g, 1 as real, g);
    assert((100 as real * g) * g == 100 as real * (g * g)) by (nonlinear_arith);
    exact::lemma_near_rounds(exact::value(Datum::ratio(1, 100)), 1 as real / 100 as real);
}

/// The sum and the mean of a single number are the number.
proof fn lemma_single(values: Seq<Datum>)
    requires
        values.len() == 1,
        values[0] matches Datum::Signed { negative, rung } && !negative && rung < TOP,
    ensures
        profile::total(values) == values[0],
        profile::mean(values) == values[0],
{
    let v = values[0];
    let rung = v->rung;
    let one = ladder::one();
    let w = laws::lemma_whole(1);
    lemma_pow2_pos(1074);
    ladder::lemma_positive(0);
    ladder::lemma_positive(rung);
    assert(values.drop_last() =~= Seq::<Datum>::empty());
    assert(profile::total(values.drop_last()) == Datum::zero(false));
    assert(ladder::mag(rung) * 1 == ladder::mag(rung));
    ladder::lemma_round_exact(rung, 1);
    assert(profile::total(values) == v);
    assert(ladder::mag(w) == one);
    ladder::lemma_round_exact(rung, one);
}

/// With no sample the width is 0.01, and with one alone too: one sample shows no deviation.
pub proof fn lemma_width_of_few(values: Seq<Datum>)
    requires
        profile::all_plausible(values),
        values.len() <= 1,
    ensures
        exact::near(exact::value(profile::utilization(values).1), 1 as real / 100 as real, 2),
        exact::value(profile::utilization(values).0) == 0 as real,
{
    lemma_default_width();
    if values.len() == 1 {
        let v = values[0];
        assert(profile::plausible(values[0]));
        profile::lemma_plausible_is_finite(v);
        lemma_single(values);
        let all = profile::squared_distances(values, v);
        assert(v.minus(v) == Datum::zero(false));
        lemma_pow2_pos(1074);
        ladder::lemma_positive(0);
        assert(0 * ladder::mag(0) == 0 && 0 * ladder::one() == 0);
        ladder::lemma_round_exact(0, ladder::one());
        assert(all[0] == Datum::zero(false));
        lemma_single(all);
    }
}

} // verus!
