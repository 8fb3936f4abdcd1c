//! Rounding a bracketed quotient to its nearest rung, in machine arithmetic.
use crate::ladder;
use crate::ladder::{BINADE, TOP};
use vstd::arithmetic::power2::*;
use vstd::prelude::*;

verus! {

/// `n / d` units lie from `m * 2^e` up to but not including `(m + 1) * 2^e`; they
/// are at the lower end exactly when `exact` says so.
pub open spec fn brackets(m: nat, e: int, exact: bool, n: nat, d: nat) -> bool {
    let up = if e >= 0 {
        pow2(e as nat)
    } else {
        1
    };
    let down = if e < 0 {
        pow2((-e) as nat)
    } else {
        1
    };
    &&& m * (up * d) <= n * down < (m + 1) * (up * d)
    &&& exact <==> n * down == m * (up * d)
}

/// Two to the power of `k`.
pub(crate) fn power_of_two(k: u32) -> (p: u128)
    requires
        k <= 126,
    ensures
        p == pow2(k as nat),
        0 < p <= 0x4000_0000_0000_0000_0000_0000_0000_0000,
{
    proof {
        lemma2_to64();
        lemma_pow2_adds(62, 64);
        lemma_pow2_adds(30, 32);
    }
    let mut p: u128 = 1;
    let mut i: u32 = 0;
    while i < k
        invariant
            i <= k <= 126,
            p == pow2(i as nat),
            p > 0,
            pow2(126) == 0x4000_0000_0000_0000_0000_0000_0000_0000,
        decreases k - i,
    {
        proof {
            lemma_pow2_unfold((i + 1) as nat);
            lemma_pow2_strictly_increases(i as nat, 126);
        }
        p = p * 2;
        i = i + 1;
    }
    proof {
        if k < 126 {
            lemma_pow2_strictly_increases(k as nat, 126);
        }
    }
    p
}

/// The number of bits of `m`.
pub(crate) fn bit_length(m: u128) -> (l: u32)
    requires
        0 < m < 0x4000_0000_0000_0000_0000_0000_0000_0000,
    ensures
        1 <= l <= 126,
        pow2((l - 1) as nat) <= m < pow2(l as nat),
{
    proof {
        lemma2_to64();
        lemma_pow2_adds(62, 64);
        lemma_pow2_adds(30, 32);
    }
    let mut p: u128 = 2;
    let mut l: u32 = 1;
    while p <= m
        invariant
            0 < m < 0x4000_0000_0000_0000_0000_0000_0000_0000,
            1 <= l <= 126,
            pow2((l - 1) as nat) <= m,
            p == pow2(l as nat),
            pow2(126) == 0x4000_0000_0000_0000_0000_0000_0000_0000,
        decreases 126 - l,
    {
        proof {
            lemma_pow2_unfold((l + 1) as nat);
        }
        p = p * 2;
        l = l + 1;
    }
    l
}

/// Dropping `s` low bits of `m` with rounding to the nearest, in the terms that
/// the ladder asks for. `w / t` is the quotient in units of the last bit of `m`.
proof fn lemma_round_bits(
    m: nat,
    kept: nat,
    rest: nat,
    s: nat,
    half: nat,
    exact: bool,
    t: nat,
    w: nat,
    rounded: nat,
)
    requires
        t > 0,
        s == 2 * half,
        half > 0,
        m == kept * s + rest,
        rest < s,
        m * t <= w < (m + 1) * t,
        exact <==> w == m * t,
        rounded == if rest > half || (rest == half && (!exact || kept % 2 == 1)) {
            kept + 1
        } else {
            kept
        },
    ensures
        2 * w > (2 * rounded - 1) * s * t || (2 * w == (2 * rounded - 1) * s * t && rounded % 2
            == 0),
        2 * w < (2 * rounded + 1) * s * t || (2 * w == (2 * rounded + 1) * s * t && rounded % 2
            == 0),
{
    assert(2 * (m * t) == 2 * kept * s * t + 2 * rest * t) by (nonlinear_arith)
        requires
            m == kept * s + rest,
    ;
    assert((2 * kept + 1) * s * t == 2 * kept * s * t + 2 * half * t) by (nonlinear_arith)
        requires
            s == 2 * half,
    ;
    assert((2 * kept - 1) * s * t == 2 * kept * s * t - 2 * half * t) by (nonlinear_arith)
        requires
            s == 2 * half,
    ;
    assert((2 * kept + 3) * s * t == 2 * kept * s * t + 6 * half * t) by (nonlinear_arith)
        requires
            s == 2 * half,
    ;
    assert((m + 1) * t == m * t + t) by (nonlinear_arith);
    assert(2 * half * t > 0) by (nonlinear_arith)
        requires
            half > 0,
            t > 0,
    ;
    assert(0 <= 2 * rest * t) by (nonlinear_arith)
        requires
            rest >= 0,
            t > 0,
    ;
    assert(2 * rest * t + 2 * t <= 4 * half * t) by (nonlinear_arith)
        requires
            rest + 1 <= 2 * half,
            t > 0,
    ;
    assert(4 * half * t == 2 * (2 * half * t)) by (nonlinear_arith);
    assert(6 * half * t == 3 * (2 * half * t)) by (nonlinear_arith);
    if rest < half {
        assert(2 * rest * t + 2 * t <= 2 * half * t) by (nonlinear_arith)
            requires
                rest + 1 <= half,
                t > 0,
        ;
    } else if rest > half {
        assert(2 * rest * t > 2 * half * t) by (nonlinear_arith)
            requires
                rest > half,
                t > 0,
        ;
    }
}

/// Scaling by a power of two does not change which of two products is larger.
proof fn lemma_scale(two_n: int, d: nat, factor: int, p: nat, down: nat, s: nat, up: nat, w: nat)
    requires
        down > 0,
        p * down == s * up,
        two_n * down == 2 * w,
    ensures
        2 * w > factor * s * (up * d) ==> two_n > d * (factor * p),
        2 * w < factor * s * (up * d) ==> two_n < d * (factor * p),
        2 * w == factor * s * (up * d) ==> two_n == d * (factor * p),
{
    assert(factor * s * (up * d) == (d * (factor * p)) * down) by (nonlinear_arith)
        requires
            p * down == s * up,
    ;
    let x = two_n;
    let y = d * (factor * p);
    assert(x * down > y * down ==> x > y) by (nonlinear_arith)
        requires
            down > 0,
    ;
    assert(x * down < y * down ==> x < y) by (nonlinear_arith)
        requires
            down > 0,
    ;
    assert(x * down == y * down ==> x == y) by (nonlinear_arith)
        requires
            down > 0,
    ;
}

/// The significand of `m * 2^e` as it stands, when no bit has to be dropped.
proof fn lemma_settle_exact(m: nat, l: nat, e: int, q: nat, sig: nat, n: nat, d: nat)
    requires
        d > 0,
        l >= 1,
        pow2((l - 1) as nat) <= m < pow2(l),
        q == if l + e - 53 < 0 { 0 } else { l + e - 53 },
        q <= e,
        q <= 2045,
        sig == m * pow2((e - q) as nat),
        brackets(m, e, true, n, d),
    ensures
        sig < 2 * BINADE,
        ladder::nearest(q * BINADE as nat + sig, n, d),
{
    let b = BINADE as nat;
    let k = (e - q) as nat;
    let p = pow2(q);
    lemma_pow2_pos(q);
    lemma_pow2_pos(k);
    lemma_pow2_adds(q, k);
    lemma2_to64();
    lemma_pow2_adds(20, 32);
    lemma_pow2_adds(21, 32);
    assert(pow2(e as nat) == p * pow2(k));
    lemma_pow2_adds(l, k);
    assert(sig < pow2(l + k)) by (nonlinear_arith)
        requires
            sig == m * pow2(k),
            m < pow2(l),
            pow2(l + k) == pow2(l) * pow2(k),
            pow2(k) > 0,
    ;
    assert(l + k <= 53);
    if l + k < 53 {
        lemma_pow2_strictly_increases(l + k, 53);
    }
    assert(n == d * (sig * p)) by (nonlinear_arith)
        requires
            n * 1 == m * (pow2(e as nat) * d),
            pow2(e as nat) == p * pow2(k),
            sig == m * pow2(k),
    ;
    if q > 0 {
        assert(l + k == 53);
        lemma_pow2_adds((l - 1) as nat, k);
        assert(sig >= pow2(52)) by (nonlinear_arith)
            requires
                sig == m * pow2(k),
                m >= pow2((l - 1) as nat),
                pow2(52) == pow2((l - 1) as nat) * pow2(k),
                pow2(k) > 0,
        ;
        assert(n >= d * (b * p)) by (nonlinear_arith)
            requires
                n == d * (sig * p),
                sig >= b,
                p > 0,
                d > 0,
        ;
    }
    assert(2 * n > d * ((2 * sig - 1) * p)) by (nonlinear_arith)
        requires
            n == d * (sig * p),
            p > 0,
            d > 0,
    ;
    assert(2 * n < d * ((2 * sig + 1) * p)) by (nonlinear_arith)
        requires
            n == d * (sig * p),
            p > 0,
            d > 0,
    ;
    ladder::lemma_nearest_significand(q, sig, n, d);
}

/// The significand of `m * 2^e` with its low bits dropped and rounded.
proof fn lemma_settle_rounded(
    m: nat,
    l: nat,
    e: int,
    exact: bool,
    q: nat,
    kept: nat,
    rest: nat,
    sig: nat,
    n: nat,
    d: nat,
)
    requires
        d > 0,
        l >= 1,
        pow2((l - 1) as nat) <= m < pow2(l),
        q == if l + e - 53 < 0 { 0 } else { l + e - 53 },
        q > e,
        q <= 2045,
        m == kept * pow2((q - e) as nat) + rest,
        rest < pow2((q - e) as nat),
        ({
            let half = pow2((q - e - 1) as nat);
            sig == if rest > half || (rest == half && (!exact || kept % 2 == 1)) {
                kept + 1
            } else {
                kept
            }
        }),
        brackets(m, e, exact, n, d),
    ensures
        sig <= 2 * BINADE,
        ladder::nearest(q * BINADE as nat + sig, n, d),
{
    let b = BINADE as nat;
    let k = (q - e) as nat;
    let s = pow2(k);
    let half = pow2((k - 1) as nat);
    let p = pow2(q);
    let up = if e >= 0 {
        pow2(e as nat)
    } else {
        1
    };
    let down = if e < 0 {
        pow2((-e) as nat)
    } else {
        1
    };
    let t = up * d;
    let w = n * down;
    lemma_pow2_pos(q);
    lemma_pow2_pos(k);
    lemma_pow2_pos((k - 1) as nat);
    lemma_pow2_unfold(k);
    lemma2_to64();
    lemma_pow2_adds(20, 32);
    lemma_pow2_adds(21, 32);
    assert(down > 0 && up > 0 && p * down == s * up) by {
        if e >= 0 {
            lemma_pow2_pos(e as nat);
            lemma_pow2_adds(k, e as nat);
            assert(p * 1 == p);
        } else {
            lemma_pow2_pos((-e) as nat);
            lemma_pow2_adds(q, (-e) as nat);
            assert(s * 1 == s);
        }
    }
    assert(t > 0) by (nonlinear_arith)
        requires
            t == up * d,
            up > 0,
            d > 0,
    ;
    lemma_round_bits(m, kept, rest, s, half, exact, t, w, sig);
    assert((2 * n) * down == 2 * w) by (nonlinear_arith)
        requires
            w == n * down,
    ;
    lemma_scale(2 * n as int, d, 2 * sig - 1, p, down, s, up, w);
    lemma_scale(2 * n as int, d, (2 * sig + 1) as int, p, down, s, up, w);
    lemma_pow2_adds(53, k);
    if l < 53 + k {
        lemma_pow2_strictly_increases(l, 53 + k);
    }
    assert(kept < pow2(53)) by (nonlinear_arith)
        requires
            m == kept * s + rest,
            m < pow2(53) * s,
            s > 0,
            rest >= 0,
    ;
    if q > 0 {
        assert(l - 1 == 52 + k);
        lemma_pow2_adds(52, k);
        assert(kept >= b) by (nonlinear_arith)
            requires
                m == kept * s + rest,
                m >= b * s,
                rest < s,
                s > 0,
        ;
        assert(n >= d * (b * p)) by (nonlinear_arith)
            requires
                n * down >= m * (up * d),
                m >= b * s,
                p * down == s * up,
                down > 0,
                up > 0,
                d > 0,
        {
            assert(m * (up * d) >= (b * s) * (up * d));
            assert((b * s) * (up * d) == (d * (b * p)) * down);
        }
    }
    ladder::lemma_nearest_significand(q, sig, n, d);
}

/// A quotient whose bracket starts at 2^2098 units or more.
proof fn lemma_settle_top(m: nat, l: nat, e: int, exact: bool, n: nat, d: nat)
    requires
        d > 0,
        l >= 1,
        pow2((l - 1) as nat) <= m,
        l + e - 53 >= 2046,
        brackets(m, e, exact, n, d),
    ensures
        ladder::nearest(TOP as nat, n, d),
{
    let b = BINADE as nat;
    let q = (l + e - 53) as nat;
    let p = pow2(q);
    let x = (l - 1) as nat;
    lemma2_to64();
    lemma_pow2_adds(20, 32);
    lemma_pow2_adds(52, q);
    if e >= 0 {
        lemma_pow2_adds(x, e as nat);
        lemma_pow2_pos(e as nat);
        assert(n >= d * (b * p)) by (nonlinear_arith)
            requires
                n * 1 >= m * (pow2(e as nat) * d),
                m >= pow2(x),
                pow2(e as nat) > 0,
                pow2(x) * pow2(e as nat) == b * p,
                d > 0,
        {
            assert(m * (pow2(e as nat) * d) >= pow2(x) * (pow2(e as nat) * d));
            assert(pow2(x) * (pow2(e as nat) * d) == d * (b * p));
        }
    } else {
        lemma_pow2_adds(52 + q, (-e) as nat);
        lemma_pow2_pos((-e) as nat);
        assert(n >= d * (b * p)) by (nonlinear_arith)
            requires
                n * pow2((-e) as nat) >= m * (1 * d),
                m >= b * p * pow2((-e) as nat),
                pow2((-e) as nat) > 0,
                d > 0,
        {
            assert(m * (1 * d) >= (b * p * pow2((-e) as nat)) * d);
            assert((b * p * pow2((-e) as nat)) * d == (d * (b * p)) * pow2((-e) as nat));
        }
    }
    ladder::lemma_nearest_top(q, n, d);
}

/// The rung nearest to a bracketed quotient of units. A bracket that is not
/// exact must be narrow enough to leave a bit to round by.
pub(crate) fn settle(m: u128, e: i32, exact: bool, Ghost(n): Ghost<nat>, Ghost(d): Ghost<nat>) -> (rung:
    u64)
    requires
        0 < m < 0x4000_0000_0000_0000_0000_0000_0000_0000,
        -10000 <= e <= 10000,
        !exact ==> m >= 0x40_0000_0000_0000,
        d > 0,
        brackets(m as nat, e as int, exact, n, d),
    ensures
        ladder::nearest(rung as nat, n, d),
{
    let l = bit_length(m);
    let excess: i32 = l as i32 + e - 53;
    let q: i32 = if excess < 0 {
        0
    } else {
        excess
    };
    if q >= 2046 {
        proof {
            lemma_settle_top(m as nat, l as nat, e as int, exact, n, d);
        }
        return TOP;
    }
    proof {
        lemma2_to64();
        lemma_pow2_adds(22, 32);
        if !exact && l < 55 {
            if l < 54 {
                lemma_pow2_strictly_increases(l as nat, 54);
            }
        }
    }
    let sig: u64 = if q <= e {
        let k: u32 = (e - q) as u32;
        proof {
            lemma_pow2_adds(l as nat, k as nat);
        }
        let p = power_of_two(k);
        proof {
            lemma_settle_exact(
                m as nat,
                l as nat,
                e as int,
                q as nat,
                m as nat * pow2(k as nat),
                n,
                d,
            );
        }
        (m * p) as u64
    } else {
        let k: u32 = (q - e) as u32;
        if k > 126 {
            proof {
                lemma_pow2_adds(30, 32);
                lemma_pow2_adds(62, 64);
                if k > 127 {
                    lemma_pow2_strictly_increases(126, (k - 1) as nat);
                }
                lemma_pow2_unfold(k as nat);
                lemma_settle_rounded(
                    m as nat,
                    l as nat,
                    e as int,
                    exact,
                    q as nat,
                    0,
                    m as nat,
                    0,
                    n,
                    d,
                );
            }
            0
        } else {
            let p = power_of_two(k);
            let half = power_of_two(k - 1);
            let kept = m / p;
            let rest = m % p;
            proof {
                lemma_pow2_pos(k as nat);
                assert(m == kept * p + rest && rest < p) by (nonlinear_arith)
                    requires
                        kept == m / p,
                        rest == m % p,
                        p > 0,
                ;
            }
            let up = rest > half || (rest == half && (!exact || kept % 2 == 1));
            let ghost sig = if up {
                (kept + 1) as nat
            } else {
                kept as nat
            };
            proof {
                lemma_settle_rounded(
                    m as nat,
                    l as nat,
                    e as int,
                    exact,
                    q as nat,
                    kept as nat,
                    rest as nat,
                    sig,
                    n,
                    d,
                );
            }
            if up {
                kept as u64 + 1
            } else {
                kept as u64
            }
        }
    };
    assert(q * BINADE + sig <= TOP) by (nonlinear_arith)
        requires
            q <= 2045,
            sig <= 2 * BINADE,
            BINADE == 0x10_0000_0000_0000,
            TOP == 0x7FF0_0000_0000_0000,
    ;
    q as u64 * BINADE + sig
}

} // verus!
