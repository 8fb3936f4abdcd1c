//! Doubles rendered with a fixed number of decimal places.
use crate::arithmetic::unpack;
use crate::double::{Datum, Double};
use crate::ladder;
use crate::ladder::{BINADE, TOP};
use crate::settle::power_of_two;
use crate::text;
use crate::text::{append_decimal, append_tail, digit_text};
use vstd::arithmetic::power2::*;
use vstd::prelude::*;

verus! {

/// `n / d` to the nearest whole number, half-way to the even one.
pub open spec fn half_even(n: nat, d: nat) -> nat {
    let q = n / d;
    let r = n % d;
    if 2 * r < d || (2 * r == d && q % 2 == 0) {
        q
    } else {
        q + 1
    }
}

/// Ten to the power of `k`.
pub open spec fn ten_to(k: nat) -> nat
    decreases k,
{
    if k == 0 {
        1
    } else {
        10 * ten_to((k - 1) as nat)
    }
}

/// A number with `places` digits after the point, rounded to the nearest.
pub open spec fn fixed(x: Datum, places: nat) -> Seq<char> {
    match x {
        Datum::Nan => "NaN"@,
        Datum::Signed { negative, rung } => {
            let sign = if negative {
                "-"@
            } else {
                Seq::<char>::empty()
            };
            if rung == TOP {
                sign + "inf"@
            } else {
                let t = half_even(ladder::mag(rung) * ten_to(places), ladder::one());
                sign + text::decimal(t / ten_to(places)) + "."@ + text::decimal_tail(t, places)
            }
        },
    }
}

/// The number that decimal digits, lowest first, stand for.
spec fn value(digits: Seq<u8>) -> nat
    decreases digits.len(),
{
    if digits.len() == 0 {
        0
    } else {
        digits[0] as nat + 10 * value(digits.drop_first())
    }
}

spec fn all_digits(digits: Seq<u8>) -> bool {
    forall|i: int| 0 <= i < digits.len() ==> #[trigger] digits[i] < 10
}

/// Doubles the digits from place `i` on and adds `carry` there. The highest digit
/// stays other than zero.
fn double_from(digits: &mut Vec<u8>, i: usize, carry: u8)
    requires
        i <= old(digits).len() < 2000,
        carry <= 1,
        all_digits(old(digits)@),
        old(digits).len() > 0 && (i < old(digits).len() || carry == 0) ==> old(digits)@.last() > 0,
    ensures
        old(digits).len() <= final(digits).len() <= old(digits).len() + 1,
        all_digits(final(digits)@),
        final(digits).len() > 0 ==> final(digits)@.last() > 0,
        final(digits)@.take(i as int) == old(digits)@.take(i as int),
        value(final(digits)@.skip(i as int)) == 2 * value(old(digits)@.skip(i as int)) + carry,
    decreases old(digits).len() - i,
{
    let ghost before = digits@;
    if i == digits.len() {
        if carry > 0 {
            digits.push(carry);
        }
        proof {
            assert(digits@.take(i as int) =~= before.take(i as int));
            assert(before.skip(i as int) =~= Seq::<u8>::empty());
            let rest = digits@.skip(i as int);
            if carry > 0 {
                assert(rest.drop_first() =~= Seq::<u8>::empty());
                assert(value(rest) == carry as nat + 10 * value(rest.drop_first()));
            } else {
                assert(rest =~= Seq::<u8>::empty());
            }
        }
    } else {
        let d = digits[i];
        let t: u8 = 2 * d + carry;
        digits.set(i, t % 10);
        let ghost between = digits@;
        double_from(digits, i + 1, t / 10);
        proof {
            let rest = digits@.skip(i as int);
            let was = before.skip(i as int);
            assert(digits@.take(i as int) =~= digits@.take(i + 1).take(i as int));
            assert(between.take(i + 1).take(i as int) =~= before.take(i as int));
            assert(digits@[i as int] == digits@.take(i + 1)[i as int]);
            assert(between.take(i + 1)[i as int] == t % 10);
            assert(rest.drop_first() =~= digits@.skip(i + 1));
            assert(was.drop_first() =~= before.skip(i + 1));
            assert(between.skip(i + 1) =~= before.skip(i + 1));
            assert(value(rest) == (t % 10) as nat + 10 * value(rest.drop_first()));
            assert(value(was) == d as nat + 10 * value(was.drop_first()));
        }
    }
}

/// The decimal digits of `m * 2^k`, lowest first.
fn digits_of(m: u64, k: u32) -> (digits: Vec<u8>)
    requires
        0 < m < 2 * BINADE,
        k <= 1000,
    ensures
        digits.len() > 0,
        all_digits(digits@),
        digits@.last() > 0,
        value(digits@) == m * pow2(k as nat),
{
    let mut digits: Vec<u8> = Vec::new();
    let mut i: u32 = 53;
    proof {
        lemma2_to64();
        lemma_pow2_adds(21, 32);
        assert(m as nat / pow2(53) == 0) by (nonlinear_arith)
            requires
                m < pow2(53),
        ;
    }
    while i > 0
        invariant
            i <= 53,
            digits.len() <= 53 - i,
            all_digits(digits@),
            digits.len() > 0 ==> digits@.last() > 0,
            value(digits@) == m as nat / pow2(i as nat),
        decreases i,
    {
        i = i - 1;
        let p = power_of_two(i);
        let bit: u8 = ((m as u128 / p) % 2) as u8;
        proof {
            lemma_pow2_unfold((i + 1) as nat);
            assert(m as nat / p as nat == 2 * (m as nat / (2 * p as nat)) + (m as nat / p as nat)
                % 2) by (nonlinear_arith)
                requires
                    p > 0,
            {
                vstd::arithmetic::div_mod::lemma_div_denominator(m as int, p as int, 2);
            }
            assert(digits@.skip(0) =~= digits@);
        }
        double_from(&mut digits, 0, bit);
        assert(digits@.skip(0) =~= digits@);
    }
    assert(m as nat / pow2(0) == m) by (nonlinear_arith)
        requires
            pow2(0) == 1,
    ;
    let mut j: u32 = 0;
    assert(m * pow2(0) == m) by (nonlinear_arith)
        requires
            pow2(0) == 1,
    ;
    while j < k
        invariant
            j <= k <= 1000,
            digits.len() <= 53 + j,
            all_digits(digits@),
            digits.len() > 0 ==> digits@.last() > 0,
            value(digits@) == m * pow2(j as nat),
        decreases k - j,
    {
        assert(digits@.skip(0) =~= digits@);
        double_from(&mut digits, 0, 0);
        proof {
            assert(digits@.skip(0) =~= digits@);
            lemma_pow2_unfold((j + 1) as nat);
            assert(m * (2 * pow2(j as nat)) == 2 * (m * pow2(j as nat))) by (nonlinear_arith);
        }
        j = j + 1;
    }
    proof {
        lemma_pow2_pos(k as nat);
        assert(m * pow2(k as nat) > 0) by (nonlinear_arith)
            requires
                m > 0,
                pow2(k as nat) > 0,
        ;
    }
    digits
}

/// Digits written highest first are the decimal of the number they stand for.
proof fn lemma_decimal(digits: Seq<u8>)
    requires
        digits.len() > 0,
        all_digits(digits),
        digits.last() > 0,
    ensures
        text::decimal(value(digits)) == Seq::new(
            digits.len(),
            |i: int| text::numeral(digits[digits.len() - 1 - i] as nat),
        ),
        value(digits) > 0,
    decreases digits.len(),
{
    let rest = digits.drop_first();
    let written = Seq::new(
        digits.len(),
        |i: int| text::numeral(digits[digits.len() - 1 - i] as nat),
    );
    if digits.len() == 1 {
        assert(rest =~= Seq::<u8>::empty());
        assert(value(rest) == 0);
        assert(text::decimal(value(digits)) =~= written);
    } else {
        assert(rest.last() == digits.last());
        lemma_decimal(rest);
        assert(text::decimal(value(digits)) =~= text::decimal(value(rest)).push(
            text::numeral(digits[0] as nat),
        ));
        assert(text::decimal(value(digits)) =~= written);
    }
}

/// Appends digits, highest first.
fn append_digits(out: &mut String, digits: &Vec<u8>)
    requires
        digits.len() > 0,
        all_digits(digits@),
        digits@.last() > 0,
    ensures
        final(out)@ == old(out)@ + text::decimal(value(digits@)),
{
    let ghost written = Seq::new(
        digits@.len(),
        |i: int| text::numeral(digits@[digits@.len() - 1 - i] as nat),
    );
    let mut i: usize = digits.len();
    while i > 0
        invariant
            i <= digits.len(),
            all_digits(digits@),
            written == Seq::new(
                digits@.len(),
                |i: int| text::numeral(digits@[digits@.len() - 1 - i] as nat),
            ),
            out@ == old(out)@ + written.take(digits.len() - i),
        decreases i,
    {
        i = i - 1;
        out.append(digit_text(digits[i]));
        assert(out@ =~= old(out)@ + written.take(digits.len() - i));
    }
    proof {
        lemma_decimal(digits@);
        assert(written.take(digits@.len() as int) =~= written);
    }
}

/// Scaling both sides of a quotient does not change what it rounds to.
proof fn lemma_half_even_scale(n: nat, d: nat, g: nat)
    requires
        d > 0,
        g > 0,
    ensures
        half_even(n * g, d * g) == half_even(n, d),
{
    let q = n / d;
    let r = n % d;
    assert(n == q * d + r && r < d) by (nonlinear_arith)
        requires
            q == n / d,
            r == n % d,
            d > 0,
    ;
    assert(d * g > 0) by (nonlinear_arith)
        requires
            d > 0,
            g > 0,
    ;
    assert(n * g == q * (d * g) + r * g && r * g < d * g) by (nonlinear_arith)
        requires
            n == q * d + r,
            r < d,
            g > 0,
    ;
    vstd::arithmetic::div_mod::lemma_fundamental_div_mod_converse(
        (n * g) as int,
        (d * g) as int,
        q as int,
        (r * g) as int,
    );
    assert((2 * r < d <==> 2 * (r * g) < d * g) && (2 * r == d <==> 2 * (r * g) == d * g))
        by (nonlinear_arith)
        requires
            g > 0,
    ;
}

/// A whole number shifted past its decimal places ends in zeros.
proof fn lemma_tail_of_whole(w: nat, places: nat)
    ensures
        text::decimal_tail(w * ten_to(places), places) == text::decimal_tail(0, places),
    decreases places,
{
    if places > 0 {
        let t = ten_to((places - 1) as nat);
        assert(w * ten_to(places) == 10 * (w * t)) by (nonlinear_arith)
            requires
                ten_to(places) == 10 * t,
        ;
        lemma_tail_of_whole(w, (places - 1) as nat);
    }
}

proof fn lemma_ten_to(places: nat)
    requires
        places <= 6,
    ensures
        1 <= ten_to(places) <= 1_000_000,
{
    reveal_with_fuel(ten_to, 7);
}

fn ten_to_exec(places: u32) -> (t: u64)
    requires
        places <= 6,
    ensures
        t == ten_to(places as nat),
        1 <= t <= 1_000_000,
    decreases places,
{
    proof {
        lemma_ten_to(places as nat);
    }
    if places == 0 {
        1
    } else {
        10 * ten_to_exec(places - 1)
    }
}

/// Appends a number with `places` digits after the point.
pub fn append_fixed(out: &mut String, x: Double, places: u32)
    requires
        1 <= places <= 6,
    ensures
        final(out)@ == old(out)@ + fixed(x@, places as nat),
{
    if x.is_nan() {
        out.append("NaN");
        return;
    }
    let ghost start = out@;
    if x.negative() {
        out.append("-");
    }
    let rung = x.rung();
    if rung == TOP {
        out.append("inf");
        assert(out@ =~= start + fixed(x@, places as nat));
        return;
    }
    let ghost signed = out@;
    let (m, e) = unpack(rung);
    let ghost scaled = ladder::mag(rung as nat) * ten_to(places as nat);
    let ghost t = half_even(scaled, ladder::one());
    let ten = ten_to_exec(places);
    proof {
        lemma_pow2_pos(1074);
    }
    if e >= 1074 {
        let k: u32 = e - 1074;
        let digits = digits_of(m, k);
        append_digits(out, &digits);
        out.append(".");
        append_tail(out, 0, places);
        proof {
            let w = m as nat * pow2(k as nat);
            lemma_pow2_adds(k as nat, 1074);
            assert(scaled == (w * ten) * ladder::one()) by (nonlinear_arith)
                requires
                    scaled == (m * pow2(e as nat)) * ten,
                    pow2(e as nat) == pow2(k as nat) * ladder::one(),
                    w == m * pow2(k as nat),
            ;
            vstd::arithmetic::div_mod::lemma_fundamental_div_mod_converse(
                scaled as int,
                ladder::one() as int,
                w * ten,
                0,
            );
            vstd::arithmetic::div_mod::lemma_fundamental_div_mod_converse(
                w * ten,
                ten as int,
                w as int,
                0,
            );
            lemma_tail_of_whole(w, places as nat);
        }
    } else {
        let k: u32 = 1074 - e;
        assert(m * ten <= 0x20_0000_0000_0000 * 1_000_000) by (nonlinear_arith)
            requires
                m <= 0x20_0000_0000_0000,
                ten <= 1_000_000,
        ;
        let n: u128 = m as u128 * ten as u128;
        let rounded: u128 = if k > 100 {
            proof {
                let d = pow2(k as nat);
                lemma2_to64();
                lemma_pow2_adds(36, 64);
                lemma_pow2_adds(4, 32);
                lemma_pow2_strictly_increases(100, k as nat);
                assert(n as nat / d == 0 && n as nat % d == n) by (nonlinear_arith)
                    requires
                        n < d,
                ;
            }
            0
        } else {
            let d = power_of_two(k);
            let q = n / d;
            let r = n % d;
            proof {
                lemma2_to64();
                lemma_pow2_adds(36, 64);
                lemma_pow2_adds(4, 32);
                if k < 100 {
                    lemma_pow2_strictly_increases(k as nat, 100);
                }
                assert(q <= n) by (nonlinear_arith)
                    requires
                        q == n / d,
                        d > 0,
                ;
                assert(r < d) by (nonlinear_arith)
                    requires
                        r == n % d,
                        d > 0,
                ;
            }
            if 2 * r < d || (2 * r == d && q % 2 == 0) {
                q
            } else {
                q + 1
            }
        };
        proof {
            let f = pow2(e as nat);
            lemma_pow2_pos(e as nat);
            lemma_pow2_pos(k as nat);
            lemma_pow2_adds(k as nat, e as nat);
            assert(scaled == n * f) by (nonlinear_arith)
                requires
                    scaled == (m * f) * ten,
                    n == m * ten,
            ;
            lemma_half_even_scale(n as nat, pow2(k as nat), f);
            assert(rounded == t);
        }
        append_decimal(out, rounded / ten as u128);
        out.append(".");
        append_tail(out, rounded, places);
    }
    assert(out@ =~= start + fixed(x@, places as nat));
}

} // verus!
