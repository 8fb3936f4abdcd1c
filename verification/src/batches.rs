//! The integer loads that the hardware is measured under.
//!
//! Each load runs a fixed recurrence and returns where it ended, so that a caller
//! can keep the compiler from dropping the work.
use vstd::arithmetic::power::*;
use vstd::prelude::*;

verus! {

/// Two numbers that wrap to the same value in `range` values.
pub open spec fn congruent(a: int, b: int, range: int) -> bool {
    (a - b) % range == 0
}

/// The accumulator of a load without wrapping: add the step's number, then
/// multiply.
pub open spec fn accumulated(n: nat, factor: int) -> int
    decreases n,
{
    if n == 0 {
        0
    } else {
        (accumulated((n - 1) as nat, factor) + (n - 1)) * factor
    }
}

proof fn lemma_congruent_step(a: int, b: int, i: int, j: int, sum: int, r: int, factor: int, range: int)
    requires
        range > 0,
        congruent(a, b, range),
        congruent(i, j, range),
        congruent(sum, a + i, range),
        congruent(r, sum * factor, range),
    ensures
        congruent(r, (b + j) * factor, range),
{
    let x = (a - b) / range;
    let y = (i - j) / range;
    let z = (sum - (a + i)) / range;
    let w = (r - sum * factor) / range;
    vstd::arithmetic::div_mod::lemma_fundamental_div_mod(a - b, range);
    vstd::arithmetic::div_mod::lemma_fundamental_div_mod(i - j, range);
    vstd::arithmetic::div_mod::lemma_fundamental_div_mod(sum - (a + i), range);
    vstd::arithmetic::div_mod::lemma_fundamental_div_mod(r - sum * factor, range);
    assert(sum == b + j + range * (x + y + z)) by (nonlinear_arith)
        requires
            a - b == range * x,
            i - j == range * y,
            sum - (a + i) == range * z,
    ;
    assert(r - (b + j) * factor == range * (w + (x + y + z) * factor)) by (nonlinear_arith)
        requires
            r - sum * factor == range * w,
            sum == b + j + range * (x + y + z),
    ;
    vstd::arithmetic::div_mod::lemma_fundamental_div_mod_converse(
        r - (b + j) * factor,
        range,
        w + (x + y + z) * factor,
        0,
    );
}

/// The accumulator in closed form: with factor `f`, `(f - 1)^2` times it is
/// `f^(n + 1) - f * (n * (f - 1) + 1)`.
pub proof fn lemma_accumulated(n: nat, factor: int)
    ensures
        (factor - 1) * (factor - 1) * accumulated(n, factor) == pow(factor, n + 1) - factor * (n * (
        factor - 1) + 1),
    decreases n,
{
    reveal(pow);
    let f = factor;
    let k = (f - 1) * (f - 1);
    if n == 0 {
        assert(pow(f, 0) == 1);
        assert(pow(f, 1) == f * pow(f, 0));
        assert(f * (0 * (f - 1) + 1) == f) by (nonlinear_arith);
        assert(k * 0 == 0);
    } else {
        let m = (n - 1) as nat;
        lemma_accumulated(m, f);
        let a = accumulated(m, f);
        let p = pow(f, n);
        assert(pow(f, n + 1) == f * p);
        assert(k * ((a + m) * f) == f * p - f * ((m + 1) * (f - 1) + 1)) by (nonlinear_arith)
            requires
                k * a == p - f * (m * (f - 1) + 1),
                k == (f - 1) * (f - 1),
        {
            assert(k * ((a + m) * f) == f * (k * a) + f * (k * m));
            assert(k * m == m * (f * f) - 2 * (m * f) + m);
            assert(f * (m * (f - 1) + 1) == m * (f * f) - m * f + f);
            assert((m + 1) * (f - 1) + 1 == m * f + f - m);
        }
    }
}

/// Where the 8-bit load ends: four times the accumulator is `3^(n + 1) - 3 * (2 n + 1)`, up
/// to multiples of four times 256.
pub proof fn lemma_int8_load(acc: i8, n: nat)
    requires
        congruent(acc as int, accumulated(n, 3), 0x100),
    ensures
        (4 * acc - (pow(3, n + 1) - 3 * (2 * n + 1))) % 0x400 == 0,
{
    lemma_accumulated(n, 3);
    let a = accumulated(n, 3);
    assert((3 - 1) * (3 - 1) * a == 4 * a);
    assert(n * (3 - 1) == 2 * n);
}

/// Where the 32-bit load ends: 36 times the accumulator is `7^(n + 1) - 7 * (6 n + 1)`, up
/// to multiples of 36 times 2^32.
pub proof fn lemma_int32_load(acc: i32, n: nat)
    requires
        congruent(acc as int, accumulated(n, 7), 0x1_0000_0000),
    ensures
        (36 * acc - (pow(7, n + 1) - 7 * (6 * n + 1))) % 0x24_0000_0000 == 0,
{
    lemma_accumulated(n, 7);
    let a = accumulated(n, 7);
    assert((7 - 1) * (7 - 1) * a == 36 * a);
    assert(n * (7 - 1) == 6 * n);
}

/// The 8-bit load: wrapping adds and multiplications by three.
pub fn run_int8_batch(n: u64) -> (acc: i8)
    ensures
        congruent(acc as int, accumulated(n as nat, 3), 0x100),
{
    let mut acc: i8 = 0;
    let mut i: u64 = 0;
    while i < n
        invariant
            i <= n,
            congruent(acc as int, accumulated(i as nat, 3), 0x100),
        decreases n - i,
    {
        let step: i8 = (i & 0xFF) as i8;
        let sum: i8 = acc.wrapping_add(step);
        let next: i8 = sum.wrapping_mul(3i8);
        proof {
            let low = i & 0xFF;
            assert(low < 0x100 && low == i % 0x100) by (bit_vector)
                requires
                    low == i & 0xFF,
            ;
            assert(low < 0x100 ==> (low as i8) as int == if low < 0x80 {
                low as int
            } else {
                low as int - 0x100
            }) by (bit_vector);
            lemma_congruent_step(
                acc as int,
                accumulated(i as nat, 3),
                step as int,
                i as int,
                sum as int,
                next as int,
                3,
                0x100,
            );
        }
        acc = next;
        i = i + 1;
    }
    acc
}

/// The 32-bit load: wrapping adds and multiplications by seven.
pub fn run_int32_batch(n: u64) -> (acc: i32)
    ensures
        congruent(acc as int, accumulated(n as nat, 7), 0x1_0000_0000),
{
    let mut acc: i32 = 0;
    let mut i: u64 = 0;
    while i < n
        invariant
            i <= n,
            congruent(acc as int, accumulated(i as nat, 7), 0x1_0000_0000),
        decreases n - i,
    {
        let step: i32 = i as i32;
        let sum: i32 = acc.wrapping_add(step);
        let next: i32 = sum.wrapping_mul(7);
        proof {
            let low = i % 0x1_0000_0000;
            assert((i as i32) as int == if low < 0x8000_0000 {
                low as int
            } else {
                low as int - 0x1_0000_0000
            }) by (bit_vector)
                requires
                    low == i % 0x1_0000_0000,
            ;
            lemma_congruent_step(
                acc as int,
                accumulated(i as nat, 7),
                step as int,
                i as int,
                sum as int,
                next as int,
                7,
                0x1_0000_0000,
            );
        }
        acc = next;
        i = i + 1;
    }
    acc
}

/// An Eisenstein integer `re + im * w`, where `w` is the cube root of unity with
/// `w * w == -1 - w`.
pub ghost struct Eisenstein {
    pub re: int,
    pub im: int,
}

impl Eisenstein {
    pub open spec fn times(self, other: Eisenstein) -> Eisenstein {
        Eisenstein {
            re: self.re * other.re - self.im * other.im,
            im: self.im * other.re + self.re * other.im - self.im * other.im,
        }
    }

    pub open spec fn plus(self, other: Eisenstein) -> Eisenstein {
        Eisenstein { re: self.re + other.re, im: self.im + other.im }
    }

    /// The square of the distance from zero in the plane.
    pub open spec fn norm(self) -> int {
        self.re * self.re - self.re * self.im + self.im * self.im
    }

    /// The square of `w` is `-1 - w`, and `w` is a cube root of one.
    pub proof fn lemma_omega()
        ensures
            ({
                let w = Eisenstein { re: 0, im: 1 };
                &&& w.times(w) == Eisenstein { re: -1, im: -1 }
                &&& w.times(w).times(w) == Eisenstein { re: 1, im: 0 }
            }),
    {
    }

    /// Multiplication distributes over addition.
    pub proof fn lemma_distributive(self, x: Eisenstein, y: Eisenstein)
        ensures
            self.times(x.plus(y)) == self.times(x).plus(self.times(y)),
    {
        let (a, b) = (self.re, self.im);
        assert(a * (x.re + y.re) == a * x.re + a * y.re) by (nonlinear_arith);
        assert(a * (x.im + y.im) == a * x.im + a * y.im) by (nonlinear_arith);
        assert(b * (x.re + y.re) == b * x.re + b * y.re) by (nonlinear_arith);
        assert(b * (x.im + y.im) == b * x.im + b * y.im) by (nonlinear_arith);
    }

    /// The norm of a product is the product of the norms.
    pub proof fn lemma_norm_of_product(self, other: Eisenstein)
        ensures
            self.times(other).norm() == self.norm() * other.norm(),
    {
        let (a, b, c, d) = (self.re, self.im, other.re, other.im);
        let (p, q, r, s) = (a * c, b * d, b * c, a * d);
        assert((p - q) * (p - q) == p * p - 2 * (p * q) + q * q) by (nonlinear_arith);
        assert((p - q) * (r + s - q) == p * r + p * s - p * q - q * r - q * s + q * q)
            by (nonlinear_arith);
        assert((r + s - q) * (r + s - q) == r * r + s * s + q * q + 2 * (r * s) - 2 * (q * r) - 2
            * (q * s)) by (nonlinear_arith);
        let (u, v, w) = (a * a, a * b, b * b);
        let (x, y, z) = (c * c, c * d, d * d);
        assert((u - v + w) * (x - y + z) == u * x - u * y + u * z - v * x + v * y - v * z + w * x - w
            * y + w * z) by (nonlinear_arith);
        assert((a * a) * (c * c) == (a * c) * (a * c)) by (nonlinear_arith);
        assert((a * a) * (c * d) == (a * c) * (a * d)) by (nonlinear_arith);
        assert((a * a) * (d * d) == (a * d) * (a * d)) by (nonlinear_arith);
        assert((a * b) * (c * c) == (a * c) * (b * c)) by (nonlinear_arith);
        assert((a * b) * (c * d) == (a * c) * (b * d)) by (nonlinear_arith);
        assert((a * b) * (c * d) == (b * c) * (a * d)) by (nonlinear_arith);
        assert((a * b) * (d * d) == (b * d) * (a * d)) by (nonlinear_arith);
        assert((b * b) * (c * c) == (b * c) * (b * c)) by (nonlinear_arith);
        assert((b * b) * (c * d) == (b * d) * (b * c)) by (nonlinear_arith);
        assert((b * b) * (d * d) == (b * d) * (b * d)) by (nonlinear_arith);
    }
}

/// The product of two Eisenstein integers.
pub fn eisenstein_multiply(a: i64, b: i64, c: i64, d: i64) -> (r: (i64, i64))
    requires
        ({
            let x = Eisenstein { re: a as int, im: b as int };
            let y = Eisenstein { re: c as int, im: d as int };
            &&& i64::MIN <= x.times(y).re <= i64::MAX
            &&& i64::MIN <= x.times(y).im <= i64::MAX
        }),
        i64::MIN <= a * c <= i64::MAX,
        i64::MIN <= b * d <= i64::MAX,
        i64::MIN <= b * c <= i64::MAX,
        i64::MIN <= a * d <= i64::MAX,
        i64::MIN <= b * c + a * d <= i64::MAX,
    ensures
        (Eisenstein { re: r.0 as int, im: r.1 as int }) == (Eisenstein {
            re: a as int,
            im: b as int,
        }).times(Eisenstein { re: c as int, im: d as int }),
{
    (a * c - b * d, b * c + a * d - b * d)
}

/// The Eisenstein load: `1 + w` times `i % 97 + (i % 31) * w` for each `i` below
/// `n`. The first factor is zero, and so is the product from there on.
pub fn run_eisenstein_batch(n: u64) -> (r: (i64, i64))
    ensures
        r == if n == 0 {
            (1i64, 1i64)
        } else {
            (0i64, 0i64)
        },
{
    let mut re: i64 = 1;
    let mut im: i64 = 1;
    let mut i: u64 = 0;
    while i < n
        invariant
            i <= n,
            i == 0 ==> re == 1 && im == 1,
            i > 0 ==> re == 0 && im == 0,
        decreases n - i,
    {
        let c: i64 = (i % 97) as i64;
        let d: i64 = (i % 31) as i64;
        assert(re * c == 0 && im * d == 0 && im * c == 0 && re * d == 0) by (nonlinear_arith)
            requires
                (re == 0 && im == 0) || (c == 0 && d == 0),
        ;
        let product = eisenstein_multiply(re, im, c, d);
        re = product.0;
        im = product.1;
        i = i + 1;
    }
    (re, im)
}

} // verus!
