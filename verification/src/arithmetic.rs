//! The operations on doubles.
use crate::double::{Datum, Double, SIGN};
use crate::ladder;
use crate::ladder::{BINADE, TOP};
use crate::settle;
use crate::settle::{bit_length, power_of_two, settle};
use vstd::arithmetic::power2::*;
use vstd::prelude::*;

verus! {

/// The bits of the not-a-number that operations return.
const QUIET: u64 = 0x7FF8_0000_0000_0000;

/// A rung as its significand and exponent.
pub(crate) fn unpack(rung: u64) -> (r: (u64, u32))
    requires
        rung < TOP,
    ensures
        r.0 == ladder::significand(rung as nat),
        r.1 == ladder::exponent(rung as nat),
        r.0 < 2 * BINADE,
        r.1 <= 2045,
        rung > 0 ==> r.0 > 0,
        r.1 > 0 ==> r.0 >= BINADE,
        ladder::mag(rung as nat) == r.0 * pow2(r.1 as nat),
{
    if rung < BINADE {
        (rung, 0)
    } else {
        (BINADE + rung % BINADE, (rung / BINADE - 1) as u32)
    }
}

/// A bracket scaled by `g` is a bracket of the scaled quotient.
proof fn lemma_brackets(m: nat, e: int, exact: bool, x: nat, y: nat, g: nat, n: nat, d: nat)
    requires
        g > 0,
        m * y <= x < (m + 1) * y,
        exact <==> x == m * y,
        e >= 0 ==> n == x * g && pow2(e as nat) * d == y * g,
        e < 0 ==> n * pow2((-e) as nat) == x * g && d == y * g,
    ensures
        settle::brackets(m, e, exact, n, d),
{
    assert(m * (y * g) == (m * y) * g) by (nonlinear_arith);
    assert((m + 1) * (y * g) == ((m + 1) * y) * g) by (nonlinear_arith);
    assert((m * y) * g <= x * g && x * g < ((m + 1) * y) * g) by (nonlinear_arith)
        requires
            g > 0,
            m * y <= x < (m + 1) * y,
    ;
    assert(x * g == (m * y) * g <==> x == m * y) by (nonlinear_arith)
        requires
            g > 0,
    ;
    assert(n * 1 == n && 1 * d == d);
}

impl Double {
    /// The double with the sign and rung given.
    fn signed(negative: bool, rung: u64) -> (r: Double)
        requires
            rung <= TOP,
        ensures
            r@ == (Datum::Signed { negative, rung: rung as nat }),
    {
        if negative {
            assert((rung + SIGN) as nat % (SIGN as nat) == rung) by (nonlinear_arith)
                requires
                    rung < SIGN,
            ;
            Double { bits: rung + SIGN }
        } else {
            Double { bits: rung }
        }
    }

    fn nan() -> (r: Double)
        ensures
            r@ is Nan,
    {
        Double { bits: QUIET }
    }

    /// The rung of the magnitude; above `TOP` for not-a-number.
    pub fn rung(self) -> (r: u64)
        ensures
            r == self.bits % SIGN,
            r > TOP <==> self@ is Nan,
            self@ matches Datum::Signed { rung, .. } ==> r == rung,
    {
        self.bits % SIGN
    }

    /// Whether the sign is negative.
    pub fn negative(self) -> (r: bool)
        ensures
            r == (self.bits >= SIGN),
            self@ matches Datum::Signed { negative, .. } ==> r == negative,
    {
        self.bits >= SIGN
    }

    /// Whether this is not a number.
    pub fn is_nan(self) -> (r: bool)
        ensures
            r == (self@ is Nan),
    {
        self.rung() > TOP
    }

    /// The double nearest to a whole number.
    pub fn whole(i: u64) -> (r: Double)
        ensures
            r@ == Datum::whole(i as int),
    {
        let ghost n = i as nat * ladder::one();
        if i == 0 {
            proof {
                assert(n == 0) by (nonlinear_arith)
                    requires
                        n == 0 * ladder::one(),
                ;
                lemma_zero(1);
            }
            return Double::signed(false, 0);
        }
        proof {
            lemma_pow2_pos(1074);
            assert(i * 1 == i && (i + 1) * 1 == i + 1 && pow2(1074) * 1 == 1 * pow2(1074));
            lemma_brackets(i as nat, 1074, true, i as nat, 1, pow2(1074), n, 1);
        }
        let rung = settle(i as u128, 1074, true, Ghost(n), Ghost(1));
        proof {
            ladder::lemma_round(rung as nat, n, 1);
        }
        Double::signed(false, rung)
    }

    /// The double nearest to a whole number that may be negative.
    pub fn whole_signed(i: i64) -> (r: Double)
        ensures
            r@ == Datum::whole(i as int),
    {
        if i < 0 {
            let size: u64 = if i == i64::MIN {
                SIGN
            } else {
                (-i) as u64
            };
            Double::whole(size).negate()
        } else {
            Double::whole(i as u64)
        }
    }

    /// The double nearest to the fraction `a / b`.
    pub fn ratio(a: u64, b: u64) -> (r: Double)
        requires
            a < BINADE,
            0 < b < 0x4000,
        ensures
            r@ == Datum::ratio(a as nat, b as nat),
    {
        let ghost n = a as nat * ladder::one();
        let ghost d = b as nat;
        if a == 0 {
            proof {
                assert(n == 0) by (nonlinear_arith)
                    requires
                        n == 0 * ladder::one(),
                ;
                lemma_zero(d);
            }
            return Double::signed(false, 0);
        }
        let x: u128 = a as u128 * 0x40_0000_0000_0000_0000;
        let m = x / b as u128;
        let exact = x % b as u128 == 0;
        proof {
            lemma_quotient(x as nat, b as nat);
            assert(0x100_0000_0000_0000 <= m) by (nonlinear_arith)
                requires
                    m == x / b as u128,
                    x >= 0x40_0000_0000_0000_0000,
                    0 < b < 0x4000,
            ;
            assert(m <= x) by (nonlinear_arith)
                requires
                    m == x / b as u128,
                    0 < b,
            ;
            lemma2_to64();
            lemma_pow2_adds(6, 64);
            lemma_pow2_adds(70, 1004);
            lemma_pow2_pos(1004);
            assert(n == x * pow2(1004)) by (nonlinear_arith)
                requires
                    n == a * pow2(1074),
                    pow2(1074) == pow2(70) * pow2(1004),
                    x == a * pow2(70),
            ;
            assert(pow2(1004) * d == d * pow2(1004)) by (nonlinear_arith);
            lemma_brackets(m as nat, 1004, exact, x as nat, b as nat, pow2(1004), n, d);
        }
        let rung = settle(m, 1004, exact, Ghost(n), Ghost(d));
        proof {
            ladder::lemma_round(rung as nat, n, d);
        }
        Double::signed(false, rung)
    }

    pub fn negate(self) -> (r: Double)
        ensures
            r@ == self@.negated(),
    {
        if self.is_nan() {
            self
        } else {
            Double::signed(!self.negative(), self.rung())
        }
    }

    pub fn abs(self) -> (r: Double)
        ensures
            r@ == self@.absolute(),
    {
        if self.is_nan() {
            self
        } else {
            Double::signed(false, self.rung())
        }
    }
}

/// The significand of a rung moved to the exponent of a lower one.
proof fn lemma_align(ma: nat, ea: nat, eb: nat)
    requires
        eb <= ea,
    ensures
        (ma * pow2((ea - eb) as nat)) * pow2(eb) == ma * pow2(ea),
{
    let k = (ea - eb) as nat;
    lemma_pow2_adds(k, eb);
    assert((ma * pow2(k)) * pow2(eb) == ma * (pow2(k) * pow2(eb))) by (nonlinear_arith);
}

/// A number that lies `2^73` or more below another in exponent is less than one
/// unit in the twentieth place after its significand.
proof fn lemma_far(ma: nat, ea: nat, mb: nat, eb: nat)
    requires
        ea >= eb + 73,
        mb < 2 * BINADE,
    ensures
        (ma * 0x10_0000) * pow2((ea - 20) as nat) == ma * pow2(ea),
        mb * pow2(eb) < pow2((ea - 20) as nat),
{
    let f = (ea - 20) as nat;
    lemma2_to64();
    lemma_pow2_adds(20, f);
    assert((ma * 0x10_0000) * pow2(f) == ma * (0x10_0000 * pow2(f))) by (nonlinear_arith);
    lemma_pow2_adds(21, 32);
    lemma_pow2_adds(53, eb);
    lemma_pow2_pos(eb);
    assert(mb * pow2(eb) < pow2(53) * pow2(eb)) by (nonlinear_arith)
        requires
            mb < pow2(53),
            pow2(eb) > 0,
    ;
    if 53 + eb < f {
        lemma_pow2_strictly_increases(53 + eb, f);
    }
}

/// What brackets say for a quotient over one at an exponent that is not negative.
proof fn lemma_brackets_whole(m: nat, e: nat, exact: bool, n: nat)
    requires
        m * pow2(e) <= n < m * pow2(e) + pow2(e),
        exact <==> n == m * pow2(e),
    ensures
        settle::brackets(m, e as int, exact, n, 1),
{
    assert(m * (pow2(e) * 1) == m * pow2(e)) by (nonlinear_arith);
    assert((m + 1) * (pow2(e) * 1) == m * pow2(e) + pow2(e)) by (nonlinear_arith);
    assert(n * 1 == n);
}

/// The sum of two magnitudes.
fn sum_of(a: u64, b: u64) -> (rung: u64)
    requires
        b <= a < TOP,
        0 < a,
    ensures
        rung <= TOP,
        rung == ladder::round(ladder::mag(a as nat) + ladder::mag(b as nat), 1),
{
    let (ma, ea) = unpack(a);
    let (mb, eb) = unpack(b);
    let ghost n = ladder::mag(a as nat) + ladder::mag(b as nat);
    let k: u32 = ea - eb;
    let rung = if k <= 72 {
        let p = power_of_two(k);
        proof {
            lemma_shifted(ma, k, p);
        }
        let m: u128 = ma as u128 * p + mb as u128;
        proof {
            assert(ma * p > 0) by (nonlinear_arith)
                requires
                    ma > 0,
                    p > 0,
            ;
            lemma_align(ma as nat, ea as nat, eb as nat);
            lemma_pow2_pos(eb as nat);
            assert(m * pow2(eb as nat) == (ma * p) * pow2(eb as nat) + mb * pow2(eb as nat))
                by (nonlinear_arith)
                requires
                    m == ma * p + mb,
            ;
            lemma_brackets_whole(m as nat, eb as nat, true, n);
        }
        settle(m, eb as i32, true, Ghost(n), Ghost(1))
    } else {
        let m: u128 = ma as u128 * 0x10_0000;
        let exact = mb == 0;
        proof {
            lemma_far(ma as nat, ea as nat, mb as nat, eb as nat);
            lemma_pow2_pos(eb as nat);
            assert(mb * pow2(eb as nat) == 0 <==> mb == 0) by (nonlinear_arith)
                requires
                    pow2(eb as nat) > 0,
            ;
            lemma_brackets_whole(m as nat, (ea - 20) as nat, exact, n);
        }
        settle(m, ea as i32 - 20, exact, Ghost(n), Ghost(1))
    };
    proof {
        ladder::lemma_round(rung as nat, n, 1);
    }
    rung
}

/// The difference of two magnitudes.
fn difference_of(a: u64, b: u64) -> (rung: u64)
    requires
        b < a < TOP,
    ensures
        rung <= TOP,
        ladder::mag(b as nat) < ladder::mag(a as nat),
        rung == ladder::round((ladder::mag(a as nat) - ladder::mag(b as nat)) as nat, 1),
{
    let (ma, ea) = unpack(a);
    let (mb, eb) = unpack(b);
    proof {
        ladder::lemma_mag_increasing(b as nat, a as nat);
    }
    let ghost n = (ladder::mag(a as nat) - ladder::mag(b as nat)) as nat;
    let k: u32 = ea - eb;
    let rung = if k <= 72 {
        let p = power_of_two(k);
        proof {
            lemma_shifted(ma, k, p);
            lemma_align(ma as nat, ea as nat, eb as nat);
            lemma_pow2_pos(eb as nat);
            assert(ma * p > mb) by (nonlinear_arith)
                requires
                    (ma * p) * pow2(eb as nat) > mb * pow2(eb as nat),
                    pow2(eb as nat) > 0,
            ;
        }
        let m: u128 = ma as u128 * p - mb as u128;
        proof {
            assert(m * pow2(eb as nat) == (ma * p) * pow2(eb as nat) - mb * pow2(eb as nat))
                by (nonlinear_arith)
                requires
                    m == ma * p - mb,
            ;
            lemma_brackets_whole(m as nat, eb as nat, true, n);
        }
        settle(m, eb as i32, true, Ghost(n), Ghost(1))
    } else if mb == 0 {
        let m: u128 = ma as u128 * 0x10_0000;
        proof {
            lemma_far(ma as nat, ea as nat, mb as nat, eb as nat);
            lemma_pow2_pos((ea - 20) as nat);
            assert(0 * pow2(eb as nat) == 0);
            lemma_brackets_whole(m as nat, (ea - 20) as nat, true, n);
        }
        settle(m, ea as i32 - 20, true, Ghost(n), Ghost(1))
    } else {
        let m: u128 = ma as u128 * 0x10_0000 - 1;
        proof {
            let f = pow2((ea - 20) as nat);
            lemma_far(ma as nat, ea as nat, mb as nat, eb as nat);
            lemma_pow2_pos(eb as nat);
            assert(mb * pow2(eb as nat) > 0) by (nonlinear_arith)
                requires
                    pow2(eb as nat) > 0,
                    mb > 0,
            ;
            assert(m * f == (ma * 0x10_0000) * f - f) by (nonlinear_arith)
                requires
                    m == ma * 0x10_0000 - 1,
            ;
            lemma_brackets_whole(m as nat, (ea - 20) as nat, false, n);
        }
        settle(m, ea as i32 - 20, false, Ghost(n), Ghost(1))
    };
    proof {
        ladder::lemma_round(rung as nat, n, 1);
    }
    rung
}

/// A significand moved up by at most 72 bits.
proof fn lemma_shifted(ma: u64, k: u32, p: u128)
    requires
        ma < 2 * BINADE,
        k <= 72,
        p == pow2(k as nat),
    ensures
        ma * p <= 0x20_0000_0000_0000 * 0x100_0000_0000_0000_0000,
{
    lemma2_to64();
    lemma_pow2_adds(8, 64);
    if k < 72 {
        lemma_pow2_strictly_increases(k as nat, 72);
    }
    assert(ma * p <= 0x20_0000_0000_0000 * 0x100_0000_0000_0000_0000) by (nonlinear_arith)
        requires
            ma <= 0x20_0000_0000_0000,
            p <= 0x100_0000_0000_0000_0000,
    ;
}

impl Double {
    pub fn plus(self, other: Double) -> (r: Double)
        ensures
            r@ == self@.plus(other@),
    {
        if self.is_nan() || other.is_nan() {
            return Double::nan();
        }
        let s = self.negative();
        let t = other.negative();
        let a = self.rung();
        let b = other.rung();
        if a == TOP && b == TOP && s != t {
            return Double::nan();
        }
        if a == TOP {
            return Double::signed(s, a);
        }
        if b == TOP {
            return Double::signed(t, b);
        }
        proof {
            ladder::lemma_positive(a as nat);
            ladder::lemma_positive(b as nat);
        }
        if s == t {
            if a == 0 && b == 0 {
                Double::signed(s, 0)
            } else if a >= b {
                Double::signed(s, sum_of(a, b))
            } else {
                Double::signed(s, sum_of(b, a))
            }
        } else if a > b {
            Double::signed(s, difference_of(a, b))
        } else if b > a {
            Double::signed(t, difference_of(b, a))
        } else {
            Double::signed(false, 0)
        }
    }

    pub fn minus(self, other: Double) -> (r: Double)
        ensures
            r@ == self@.minus(other@),
    {
        self.plus(other.negate())
    }
}

/// The product of two magnitudes.
fn product_of(a: u64, b: u64) -> (rung: u64)
    requires
        0 < a < TOP,
        0 < b < TOP,
    ensures
        rung <= TOP,
        rung == ladder::round(ladder::mag(a as nat) * ladder::mag(b as nat), ladder::one()),
{
    let (ma, ea) = unpack(a);
    let (mb, eb) = unpack(b);
    let ghost n = ladder::mag(a as nat) * ladder::mag(b as nat);
    let ghost d = ladder::one();
    proof {
        assert(0 < ma * mb < 0x400_0000_0000_0000_0000_0000_0000) by (nonlinear_arith)
            requires
                0 < ma < 0x20_0000_0000_0000,
                0 < mb < 0x20_0000_0000_0000,
        ;
    }
    let m: u128 = ma as u128 * mb as u128;
    let e: i32 = ea as i32 + eb as i32 - 1074;
    proof {
        let f = (ea + eb) as nat;
        lemma_pow2_adds(ea as nat, eb as nat);
        assert(n == m * pow2(f)) by (nonlinear_arith)
            requires
                n == (ma * pow2(ea as nat)) * (mb * pow2(eb as nat)),
                m == ma * mb,
                pow2(f) == pow2(ea as nat) * pow2(eb as nat),
        ;
        lemma_pow2_pos(1074);
        lemma_pow2_pos(f);
        assert(m * 1 == m && (m + 1) * 1 == m + 1);
        if e >= 0 {
            lemma_pow2_adds(e as nat, 1074);
            assert(pow2(e as nat) * d == 1 * pow2(f));
            lemma_brackets(m as nat, e as int, true, m as nat, 1, pow2(f), n, d);
        } else {
            lemma_pow2_adds(f, (-e) as nat);
            assert(n * pow2((-e) as nat) == m * d) by (nonlinear_arith)
                requires
                    n == m * pow2(f),
                    d == pow2(f) * pow2((-e) as nat),
            ;
            lemma_brackets(m as nat, e as int, true, m as nat, 1, d, n, d);
        }
    }
    let rung = settle(m, e, true, Ghost(n), Ghost(d));
    proof {
        ladder::lemma_round(rung as nat, n, d);
    }
    rung
}

/// The quotient of two magnitudes.
fn quotient_of(a: u64, b: u64) -> (rung: u64)
    requires
        0 < a < TOP,
        0 < b < TOP,
    ensures
        rung <= TOP,
        rung == ladder::round(ladder::mag(a as nat) * ladder::one(), ladder::mag(b as nat)),
{
    let (ma, ea) = unpack(a);
    let (mb, eb) = unpack(b);
    let ghost n = ladder::mag(a as nat) * ladder::one();
    let ghost d = ladder::mag(b as nat);
    let up = 123 - bit_length_of(ma);
    let p = power_of_two(up);
    proof {
        lemma_lifted(ma, up, p);
        ladder::lemma_positive(b as nat);
    }
    let x: u128 = ma as u128 * p;
    let m: u128 = x / mb as u128;
    let exact = x % mb as u128 == 0;
    let e: i32 = ea as i32 + 1074 - up as i32 - eb as i32;
    proof {
        lemma_quotient(x as nat, mb as nat);
        assert(m <= x) by (nonlinear_arith)
            requires
                m == x / mb as u128,
                mb > 0,
        ;
        assert(m >= 0x40_0000_0000_0000) by (nonlinear_arith)
            requires
                m == x / mb as u128,
                x >= 0x400_0000_0000_0000_0000_0000_0000_0000,
                0 < mb < 0x20_0000_0000_0000,
        ;
        let g = pow2(eb as nat);
        let f = (ea + 1074) as nat;
        lemma_pow2_pos(eb as nat);
        lemma_pow2_adds(ea as nat, 1074);
        assert(n == ma * pow2(f)) by (nonlinear_arith)
            requires
                n == (ma * pow2(ea as nat)) * pow2(1074),
                pow2(f) == pow2(ea as nat) * pow2(1074),
        ;
        if e >= 0 {
            let h = (e + eb) as nat;
            lemma_pow2_adds(e as nat, eb as nat);
            lemma_pow2_adds(up as nat, h);
            lemma_pow2_pos(h);
            assert(n == x * pow2(h)) by (nonlinear_arith)
                requires
                    n == ma * pow2(f),
                    pow2(f) == p * pow2(h),
                    x == ma * p,
            ;
            assert(pow2(e as nat) * d == mb * pow2(h)) by (nonlinear_arith)
                requires
                    d == mb * pow2(eb as nat),
                    pow2(h) == pow2(e as nat) * pow2(eb as nat),
            ;
            lemma_brackets(m as nat, e as int, exact, x as nat, mb as nat, pow2(h), n, d);
        } else {
            let y = (-e) as nat;
            lemma_pow2_adds(f, y);
            lemma_pow2_adds(up as nat, eb as nat);
            assert(n * pow2(y) == x * g) by (nonlinear_arith)
                requires
                    n == ma * pow2(f),
                    pow2(f) * pow2(y) == p * g,
                    x == ma * p,
            ;
            lemma_brackets(m as nat, e as int, exact, x as nat, mb as nat, g, n, d);
        }
    }
    let rung = settle(m, e, exact, Ghost(n), Ghost(d));
    proof {
        ladder::lemma_round(rung as nat, n, d);
    }
    rung
}

/// The number of bits of a significand.
fn bit_length_of(m: u64) -> (l: u32)
    requires
        0 < m < 2 * BINADE,
    ensures
        1 <= l <= 53,
        pow2((l - 1) as nat) <= m < pow2(l as nat),
{
    let l = bit_length(m as u128);
    proof {
        if l > 53 {
            lemma2_to64();
            lemma_pow2_adds(21, 32);
            if l > 54 {
                lemma_pow2_strictly_increases(53, (l - 1) as nat);
            }
        }
    }
    l
}

/// A significand moved up to 123 bits.
proof fn lemma_lifted(ma: u64, up: u32, p: u128)
    requires
        0 < ma < 2 * BINADE,
        up <= 122,
        p == pow2(up as nat),
        pow2((122 - up) as nat) <= ma < pow2((123 - up) as nat),
    ensures
        0x400_0000_0000_0000_0000_0000_0000_0000 <= ma * p
            < 0x800_0000_0000_0000_0000_0000_0000_0000,
{
    lemma2_to64();
    lemma_pow2_adds(26, 32);
    lemma_pow2_adds(58, 64);
    lemma_pow2_unfold(123);
    lemma_pow2_adds((122 - up) as nat, up as nat);
    lemma_pow2_adds((123 - up) as nat, up as nat);
    lemma_pow2_pos(up as nat);
    assert(pow2((122 - up) as nat) * p <= ma * p < pow2((123 - up) as nat) * p)
        by (nonlinear_arith)
        requires
            pow2((122 - up) as nat) <= ma < pow2((123 - up) as nat),
            p > 0,
    ;
}

impl Double {
    pub fn times(self, other: Double) -> (r: Double)
        ensures
            r@ == self@.times(other@),
    {
        if self.is_nan() || other.is_nan() {
            return Double::nan();
        }
        let negative = self.negative() != other.negative();
        let a = self.rung();
        let b = other.rung();
        if a == TOP || b == TOP {
            if a == 0 || b == 0 {
                return Double::nan();
            }
            return Double::signed(negative, TOP);
        }
        if a == 0 || b == 0 {
            proof {
                ladder::lemma_positive(a as nat);
                ladder::lemma_positive(b as nat);
                assert(ladder::mag(a as nat) * ladder::mag(b as nat) == 0) by (nonlinear_arith)
                    requires
                        ladder::mag(a as nat) == 0 || ladder::mag(b as nat) == 0,
                ;
                lemma_pow2_pos(1074);
                lemma_zero(ladder::one());
            }
            return Double::signed(negative, 0);
        }
        Double::signed(negative, product_of(a, b))
    }

    pub fn over(self, other: Double) -> (r: Double)
        ensures
            r@ == self@.over(other@),
    {
        if self.is_nan() || other.is_nan() {
            return Double::nan();
        }
        let negative = self.negative() != other.negative();
        let a = self.rung();
        let b = other.rung();
        if (a == TOP && b == TOP) || (a == 0 && b == 0) {
            return Double::nan();
        }
        if a == TOP || b == 0 {
            return Double::signed(negative, TOP);
        }
        if b == TOP {
            return Double::signed(negative, 0);
        }
        if a == 0 {
            proof {
                ladder::lemma_positive(a as nat);
                ladder::lemma_positive(b as nat);
                assert(0 * ladder::one() == 0);
                lemma_zero(ladder::mag(b as nat));
            }
            return Double::signed(negative, 0);
        }
        Double::signed(negative, quotient_of(a, b))
    }

    /// Whether this is less than `other`.
    pub fn less(self, other: Double) -> (r: bool)
        ensures
            r == self@.less(other@),
    {
        if self.is_nan() || other.is_nan() {
            return false;
        }
        let a = self.rung();
        let b = other.rung();
        proof {
            lemma_order(a as nat, b as nat);
        }
        match (self.negative(), other.negative()) {
            (false, false) => a < b,
            (false, true) => false,
            (true, false) => a > 0 || b > 0,
            (true, true) => a > b,
        }
    }

    /// Whether this and `other` are the same number.
    pub fn equal(self, other: Double) -> (r: bool)
        ensures
            r == self@.equal(other@),
    {
        if self.is_nan() || other.is_nan() {
            return false;
        }
        let a = self.rung();
        let b = other.rung();
        proof {
            lemma_order(a as nat, b as nat);
        }
        a == b && (a == 0 || self.negative() == other.negative())
    }

    /// The larger of two, a number rather than not-a-number.
    pub fn larger(self, other: Double) -> (r: Double)
        ensures
            r@ == self@.larger(other@),
    {
        if self.is_nan() || self.less(other) {
            other
        } else {
            self
        }
    }

    /// The smaller of two, a number rather than not-a-number.
    pub fn smaller(self, other: Double) -> (r: Double)
        ensures
            r@ == self@.smaller(other@),
    {
        if self.is_nan() || other.less(self) {
            other
        } else {
            self
        }
    }

    /// This, brought into the range from `low` to `high`.
    pub fn clamped(self, low: Double, high: Double) -> (r: Double)
        ensures
            r@ == self@.clamped(low@, high@),
    {
        if self.less(low) {
            low
        } else if high.less(self) {
            high
        } else {
            self
        }
    }
}

/// The whole square root of a number.
fn whole_root(x: u128) -> (s: u64)
    requires
        x < 0x4000_0000_0000_0000_0000_0000_0000_0000,
    ensures
        s < 0x8000_0000_0000_0000,
        s * s <= x < (s + 1) * (s + 1),
{
    let mut low: u64 = 0;
    let mut high: u64 = 0x8000_0000_0000_0000;
    assert(0x8000_0000_0000_0000 * 0x8000_0000_0000_0000
        == 0x4000_0000_0000_0000_0000_0000_0000_0000) by (nonlinear_arith);
    while high - low > 1
        invariant
            low < high <= 0x8000_0000_0000_0000,
            low * low <= x < high * high,
        decreases high - low,
    {
        let middle: u64 = low + (high - low) / 2;
        assert(middle * middle <= 0x4000_0000_0000_0000_0000_0000_0000_0000) by (nonlinear_arith)
            requires
                middle <= 0x8000_0000_0000_0000,
        ;
        if middle as u128 * middle as u128 <= x {
            low = middle;
        } else {
            high = middle;
        }
    }
    low
}

/// The square root of a magnitude.
fn root_of(a: u64) -> (rung: u64)
    requires
        0 < a < TOP,
    ensures
        rung <= TOP,
        rung == ladder::root(ladder::mag(a as nat) * ladder::one()),
{
    let (ma, ea) = unpack(a);
    let ghost n = ladder::mag(a as nat) * ladder::one();
    let l = bit_length_of(ma);
    // The significand moved up to 125 or 126 bits, whichever leaves an even power of two.
    let up: u32 = if (ea + l) % 2 == 1 {
        125 - l
    } else {
        126 - l
    };
    let h: u32 = (ea + 1074 - up) / 2;
    let p = power_of_two(up);
    proof {
        lemma_lifted_root(ma, l, up, p);
    }
    let x: u128 = ma as u128 * p;
    let s = whole_root(x);
    proof {
        assert(s >= 0x4000_0000_0000_0000) by (nonlinear_arith)
            requires
                (s + 1) * (s + 1) > x,
                x >= 0x1000_0000_0000_0000_0000_0000_0000_0000,
        ;
        assert(s * s < 0x4000_0000_0000_0000_0000_0000_0000_0000) by (nonlinear_arith)
            requires
                s < 0x8000_0000_0000_0000,
        ;
    }
    let exact = s as u128 * s as u128 == x;
    proof {
        let g = pow2(h as nat);
        let unit = g * g;
        lemma_pow2_pos(h as nat);
        lemma_pow2_adds(h as nat, h as nat);
        lemma_pow2_adds(up as nat, (2 * h) as nat);
        lemma_pow2_adds(ea as nat, 1074);
        assert(n == x * unit) by (nonlinear_arith)
            requires
                n == (ma * pow2(ea as nat)) * pow2(1074),
                pow2((ea + 1074) as nat) == pow2(ea as nat) * pow2(1074),
                pow2((ea + 1074) as nat) == p * unit,
                x == ma * p,
        ;
        assert(s * s * unit <= x * unit && x * unit < (s + 1) * (s + 1) * unit && (s * s == x
            <==> x * unit == s * s * unit)) by (nonlinear_arith)
            requires
                s * s <= x < (s + 1) * (s + 1),
                unit == g * g,
                g > 0,
        ;
        if exact {
            lemma_brackets_whole(s as nat, h as nat, true, s as nat * g);
        } else {
            assert(s * (g * 2) <= ((2 * s + 1) * g) * 1 < (s + 1) * (g * 2) && ((2 * s + 1) * g) * 1
                != s * (g * 2)) by (nonlinear_arith)
                requires
                    g > 0,
            ;
        }
    }
    let rung = if exact {
        settle(
            s as u128,
            h as i32,
            true,
            Ghost(s as nat * pow2(h as nat)),
            Ghost(1),
        )
    } else {
        settle(
            s as u128,
            h as i32,
            false,
            Ghost(((2 * s + 1) * pow2(h as nat)) as nat),
            Ghost(2),
        )
    };
    proof {
        ladder::lemma_nearest_root(rung as nat, s as nat, h as nat, exact, n);
        ladder::lemma_root(rung as nat, n);
    }
    rung
}

/// A significand of `l` bits moved up to 125 or 126 bits.
proof fn lemma_lifted_root(ma: u64, l: u32, up: u32, p: u128)
    requires
        0 < ma < 2 * BINADE,
        1 <= l <= 53,
        up == 125 - l || up == 126 - l,
        p == pow2(up as nat),
        pow2((l - 1) as nat) <= ma < pow2(l as nat),
    ensures
        0x1000_0000_0000_0000_0000_0000_0000_0000 <= ma * p
            < 0x4000_0000_0000_0000_0000_0000_0000_0000,
{
    lemma2_to64();
    lemma_pow2_adds(28, 32);
    lemma_pow2_adds(60, 64);
    lemma_pow2_unfold(125);
    lemma_pow2_unfold(126);
    lemma_pow2_adds((l - 1) as nat, up as nat);
    lemma_pow2_adds(l as nat, up as nat);
    lemma_pow2_pos(up as nat);
    assert(pow2((l - 1) as nat) * p <= ma * p < pow2(l as nat) * p) by (nonlinear_arith)
        requires
            pow2((l - 1) as nat) <= ma < pow2(l as nat),
            p > 0,
    ;
}

/// Cutting `m * 2^e` units to a whole number.
proof fn lemma_cut(m: nat, e: nat, p: nat, whole: nat)
    requires
        e >= 1074 ==> p == pow2((e - 1074) as nat) && whole == m * p,
        e < 1074 ==> p == pow2((1074 - e) as nat) && whole == m / p,
    ensures
        (m * pow2(e)) / ladder::one() == whole,
{
    let one = ladder::one();
    lemma_pow2_pos(1074);
    if e >= 1074 {
        lemma_pow2_adds((e - 1074) as nat, 1074);
        assert((m * (p * one)) / one == m * p) by (nonlinear_arith)
            requires
                one > 0,
        ;
    } else {
        let f = pow2(e);
        lemma_pow2_pos(e);
        lemma_pow2_pos((1074 - e) as nat);
        lemma_pow2_adds((1074 - e) as nat, e);
        assert(whole * p <= m < (whole + 1) * p) by (nonlinear_arith)
            requires
                whole == m / p,
                p > 0,
        ;
        assert(whole * (p * f) <= m * f < (whole + 1) * (p * f)) by (nonlinear_arith)
            requires
                whole * p <= m < (whole + 1) * p,
                f > 0,
        ;
        let x = m * f;
        assert(x / one == whole) by (nonlinear_arith)
            requires
                whole * one <= x < (whole + 1) * one,
                one > 0,
        ;
    }
}

impl Double {
    /// The square root.
    pub fn root(self) -> (r: Double)
        ensures
            r@ == self@.root(),
    {
        if self.is_nan() {
            return Double::nan();
        }
        let a = self.rung();
        if a == 0 || (a == TOP && !self.negative()) {
            return self;
        }
        if self.negative() {
            return Double::nan();
        }
        Double::signed(false, root_of(a))
    }

    /// This cut to a whole number, at the bounds of `u64` where it lies beyond them.
    pub fn truncated(self) -> (r: u64)
        ensures
            r == self@.truncated(),
    {
        if self.is_nan() || self.negative() {
            return 0;
        }
        let a = self.rung();
        proof {
            lemma_pow2_pos(1074);
        }
        if a == TOP {
            proof {
                assert(ladder::mag(TOP as nat) == BINADE as nat * pow2(2046));
                lemma_huge(BINADE as nat, 2046);
            }
            return u64::MAX;
        }
        let (m, e) = unpack(a);
        if e >= 1086 {
            proof {
                lemma_huge(m as nat, e as nat);
            }
            return u64::MAX;
        }
        if e >= 1074 {
            let p = power_of_two(e - 1074);
            proof {
                lemma_cut(m as nat, e as nat, p as nat, (m * p) as nat);
                lemma2_to64();
                if e < 1085 {
                    lemma_pow2_strictly_increases((e - 1074) as nat, 11);
                }
                assert(m * p <= 0x20_0000_0000_0000 * 0x800) by (nonlinear_arith)
                    requires
                        m <= 0x20_0000_0000_0000,
                        p <= 0x800,
                ;
            }
            let whole: u128 = m as u128 * p;
            if whole > u64::MAX as u128 {
                u64::MAX
            } else {
                whole as u64
            }
        } else if e <= 1021 {
            proof {
                let p = pow2((1074 - e) as nat);
                lemma2_to64();
                lemma_pow2_adds(21, 32);
                if e < 1021 {
                    lemma_pow2_strictly_increases(53, (1074 - e) as nat);
                }
                assert(m as nat / p == 0) by (nonlinear_arith)
                    requires
                        m < p,
                ;
                lemma_cut(m as nat, e as nat, p, 0);
            }
            0
        } else {
            let p = power_of_two(1074 - e);
            proof {
                lemma_cut(m as nat, e as nat, p as nat, m as nat / p as nat);
                assert(m as nat / p as nat <= m) by (nonlinear_arith)
                    requires
                        p > 0,
                ;
            }
            (m as u128 / p) as u64
        }
    }
}

/// A number of 2^64 or more.
proof fn lemma_huge(m: nat, e: nat)
    requires
        m >= BINADE,
        e >= 1086,
    ensures
        (m * pow2(e)) / ladder::one() > u64::MAX,
{
    let k = (e - 1074) as nat;
    lemma_cut(m, e, pow2(k), m * pow2(k));
    lemma2_to64();
    if k > 12 {
        lemma_pow2_strictly_increases(12, k);
    }
    assert(m * pow2(k) >= 0x10_0000_0000_0000 * 0x1000) by (nonlinear_arith)
        requires
            m >= 0x10_0000_0000_0000,
            pow2(k) >= 0x1000,
    ;
}

/// Magnitudes are ordered as their rungs are.
proof fn lemma_order(a: nat, b: nat)
    ensures
        a < b <==> ladder::mag(a) < ladder::mag(b),
        b < a <==> ladder::mag(b) < ladder::mag(a),
        a == 0 <==> ladder::mag(a) == 0,
        b == 0 <==> ladder::mag(b) == 0,
{
    ladder::lemma_positive(a);
    ladder::lemma_positive(b);
    if a < b {
        ladder::lemma_mag_increasing(a, b);
    } else if b < a {
        ladder::lemma_mag_increasing(b, a);
    }
}

proof fn lemma_zero(d: nat)
    requires
        d > 0,
    ensures
        ladder::round(0, d) == 0,
{
    ladder::lemma_step(0);
    assert(0 < d * (ladder::mag(0) + ladder::mag(1))) by (nonlinear_arith)
        requires
            d > 0,
            ladder::mag(0) < ladder::mag(1),
    ;
    ladder::lemma_round(0, 0, d);
}

proof fn lemma_quotient(x: nat, y: nat)
    requires
        y > 0,
    ensures
        (x / y) * y <= x < (x / y + 1) * y,
        x % y == 0 <==> x == (x / y) * y,
{
    assert((x / y) * y <= x < (x / y + 1) * y && (x % y == 0 <==> x == (x / y) * y))
        by (nonlinear_arith)
        requires
            y > 0,
    ;
}

} // verus!
