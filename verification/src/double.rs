//! Double-precision numbers as the library computes with them.
//!
//! A [`Double`] is a binary64 bit pattern. Its view is a [`Datum`]: not a
//! number, or a sign and a rung of the ladder of magnitudes. The operations are
//! those of IEEE 754 under rounding to the nearest, ties to even: exact, then
//! rounded once. The bits of a not-a-number result carry no meaning.
use crate::ladder;
use crate::ladder::TOP;
use vstd::prelude::*;

verus! {

/// The weight of the sign bit: 2^63.
pub const SIGN: u64 = 0x8000_0000_0000_0000;

/// What a double stands for.
pub enum Datum {
    /// Not a number.
    Nan,
    /// A rung of the ladder with a sign; rung `TOP` is infinity.
    Signed { negative: bool, rung: nat },
}

impl Datum {
    /// What a bit pattern stands for.
    pub open spec fn of_bits(bits: u64) -> Datum {
        let rung = bits as nat % (SIGN as nat);
        if rung > TOP {
            Datum::Nan
        } else {
            Datum::Signed { negative: bits >= SIGN, rung }
        }
    }

    /// The number with the sign and magnitude given: `n / d` units, rounded.
    pub open spec fn rounded(negative: bool, n: nat, d: nat) -> Datum {
        Datum::Signed { negative, rung: ladder::round(n, d) }
    }

    pub open spec fn zero(negative: bool) -> Datum {
        Datum::Signed { negative, rung: 0 }
    }

    pub open spec fn infinity(negative: bool) -> Datum {
        Datum::Signed { negative, rung: TOP as nat }
    }

    /// Neither infinite nor not a number.
    pub open spec fn finite(self) -> bool {
        self matches Datum::Signed { rung, .. } && rung < TOP
    }

    /// A number that a double can be, infinities included.
    pub open spec fn number(self) -> bool {
        self matches Datum::Signed { rung, .. } && rung <= TOP
    }

    /// The number in units of 2^-1074, with infinity read as 2^1024.
    pub open spec fn units(self) -> int {
        match self {
            Datum::Nan => 0,
            Datum::Signed { negative, rung } => if negative {
                -(ladder::mag(rung) as int)
            } else {
                ladder::mag(rung) as int
            },
        }
    }

    /// The double nearest to a whole number.
    pub open spec fn whole(i: int) -> Datum {
        Datum::rounded(
            i < 0,
            (if i < 0 {
                -i
            } else {
                i
            }) as nat * ladder::one(),
            1,
        )
    }

    /// The double nearest to a fraction.
    pub open spec fn ratio(a: nat, b: nat) -> Datum {
        Datum::rounded(false, a * ladder::one(), b)
    }

    pub open spec fn negated(self) -> Datum {
        match self {
            Datum::Nan => Datum::Nan,
            Datum::Signed { negative, rung } => Datum::Signed { negative: !negative, rung },
        }
    }

    pub open spec fn absolute(self) -> Datum {
        match self {
            Datum::Nan => Datum::Nan,
            Datum::Signed { rung, .. } => Datum::Signed { negative: false, rung },
        }
    }

    pub open spec fn plus(self, other: Datum) -> Datum {
        match (self, other) {
            (Datum::Nan, _) => Datum::Nan,
            (_, Datum::Nan) => Datum::Nan,
            (
                Datum::Signed { negative: s, rung: a },
                Datum::Signed { negative: t, rung: b },
            ) => if a == TOP && b == TOP && s != t {
                Datum::Nan
            } else if a == TOP {
                self
            } else if b == TOP {
                other
            } else {
                let sum = self.units() + other.units();
                if sum == 0 {
                    Datum::zero(s && t)
                } else {
                    Datum::rounded(
                        sum < 0,
                        (if sum < 0 {
                            -sum
                        } else {
                            sum
                        }) as nat,
                        1,
                    )
                }
            },
        }
    }

    pub open spec fn minus(self, other: Datum) -> Datum {
        self.plus(other.negated())
    }

    pub open spec fn times(self, other: Datum) -> Datum {
        match (self, other) {
            (Datum::Nan, _) => Datum::Nan,
            (_, Datum::Nan) => Datum::Nan,
            (
                Datum::Signed { negative: s, rung: a },
                Datum::Signed { negative: t, rung: b },
            ) => if a == TOP || b == TOP {
                if a == 0 || b == 0 {
                    Datum::Nan
                } else {
                    Datum::infinity(s != t)
                }
            } else {
                Datum::rounded(s != t, ladder::mag(a) * ladder::mag(b), ladder::one())
            },
        }
    }

    pub open spec fn over(self, other: Datum) -> Datum {
        match (self, other) {
            (Datum::Nan, _) => Datum::Nan,
            (_, Datum::Nan) => Datum::Nan,
            (
                Datum::Signed { negative: s, rung: a },
                Datum::Signed { negative: t, rung: b },
            ) => if (a == TOP && b == TOP) || (a == 0 && b == 0) {
                Datum::Nan
            } else if a == TOP || b == 0 {
                Datum::infinity(s != t)
            } else if b == TOP {
                Datum::zero(s != t)
            } else {
                Datum::rounded(s != t, ladder::mag(a) * ladder::one(), ladder::mag(b))
            },
        }
    }

    /// The square root.
    pub open spec fn root(self) -> Datum {
        match self {
            Datum::Nan => Datum::Nan,
            Datum::Signed { negative, rung } => if rung == 0 || (rung == TOP && !negative) {
                self
            } else if negative {
                Datum::Nan
            } else {
                Datum::Signed {
                    negative: false,
                    rung: ladder::root(ladder::mag(rung) * ladder::one()),
                }
            },
        }
    }

    /// The order of numbers. Nothing is less than, or more than, not-a-number,
    /// and the two zeros are equal.
    pub open spec fn less(self, other: Datum) -> bool {
        self is Signed && other is Signed && self.units() < other.units()
    }

    pub open spec fn equal(self, other: Datum) -> bool {
        self is Signed && other is Signed && self.units() == other.units()
    }

    /// The larger of two; a number rather than not-a-number.
    pub open spec fn larger(self, other: Datum) -> Datum {
        if self is Nan || self.less(other) {
            other
        } else {
            self
        }
    }

    /// The smaller of two; a number rather than not-a-number.
    pub open spec fn smaller(self, other: Datum) -> Datum {
        if self is Nan || other.less(self) {
            other
        } else {
            self
        }
    }

    /// Brought into the range from `low` to `high`; not-a-number stays.
    pub open spec fn clamped(self, low: Datum, high: Datum) -> Datum {
        if self.less(low) {
            low
        } else if high.less(self) {
            high
        } else {
            self
        }
    }

    /// Cut to a whole number and brought into the range of `u64`.
    pub open spec fn truncated(self) -> nat {
        match self {
            Datum::Nan => 0,
            Datum::Signed { negative, rung } => if negative {
                0
            } else {
                let whole = ladder::mag(rung) / ladder::one();
                if whole > u64::MAX {
                    u64::MAX as nat
                } else {
                    whole
                }
            },
        }
    }
}

/// A binary64 number, held as its bit pattern.
#[derive(Clone, Copy, Debug)]
pub struct Double {
    pub bits: u64,
}

impl View for Double {
    type V = Datum;

    open spec fn view(&self) -> Datum {
        Datum::of_bits(self.bits)
    }
}

} // verus!
