//! Exact signed decimal amounts.
//!
//! An [`Amount`] is a sign, an integer magnitude and a scale, and denotes
//! `mag * 10^(-scale)`, negated when `neg` holds.  The scale of an input is
//! carried through arithmetic the way a decimal library carries it: the sum
//! or difference of two amounts is produced at the larger of the two scales.
//! All arithmetic is exact; an operation whose result would need a magnitude
//! beyond `u128::MAX` at the joined scale reports `None` instead of rounding.

use vstd::prelude::*;

verus! {

/// Greatest number of digits allowed after the decimal point.
pub const MAX_SCALE: u32 = 28;

const U128_MAX_DIV_10: u128 = u128::MAX / 10;

/// `10^e` as a mathematical integer.
pub open spec fn pow10(e: nat) -> int
    decreases e,
{
    if e == 0 {
        1
    } else {
        10 * pow10((e - 1) as nat)
    }
}

pub proof fn lemma_pow10_pos(e: nat)
    ensures
        pow10(e) >= 1,
    decreases e,
{
    if e > 0 {
        lemma_pow10_pos((e - 1) as nat);
    }
}

pub proof fn lemma_pow10_adds(a: nat, b: nat)
    ensures
        pow10(a + b) == pow10(a) * pow10(b),
    decreases a,
{
    if a == 0 {
    } else {
        lemma_pow10_adds((a - 1) as nat, b);
        assert((a + b - 1) as nat == (a - 1) as nat + b);
        assert(10 * (pow10((a - 1) as nat) * pow10(b)) == (10 * pow10((a - 1) as nat)) * pow10(b))
            by (nonlinear_arith);
    }
}

proof fn lemma_mul_neg(x: int, y: int)
    ensures
        (-x) * y == -(x * y),
{
    assert((-x) * y == -(x * y)) by (nonlinear_arith);
}

/// The signed integer denoted by a sign flag and a magnitude.
pub open spec fn signed(neg: bool, mag: u128) -> int {
    if neg {
        -(mag as int)
    } else {
        mag as int
    }
}

/// An exact signed decimal number: `mag * 10^(-scale)`, negated when `neg`
/// holds.  Scales are bounded by [`MAX_SCALE`]; a magnitude of zero is
/// always stored with a positive sign.
#[derive(Clone, Copy, Debug)]
pub struct Amount {
    pub neg: bool,
    pub mag: u128,
    pub scale: u32,
}

impl Amount {
    pub open spec fn valid(self) -> bool {
        &&& self.scale <= MAX_SCALE
        &&& (self.mag == 0 ==> !self.neg)
    }

    /// The denoted value, as an integer count of `10^(-MAX_SCALE)` units.
    pub open spec fn value(self) -> int
        recommends
            self.valid(),
    {
        self.units_at(MAX_SCALE)
    }

    /// The denoted value as an integer count of `10^(-s)` units.
    pub open spec fn units_at(self, s: u32) -> int
        recommends
            self.scale <= s,
    {
        if self.neg {
            -(self.mag * pow10((s - self.scale) as nat))
        } else {
            self.mag * pow10((s - self.scale) as nat)
        }
    }

    pub open spec fn spec_zero() -> Amount {
        Amount { neg: false, mag: 0, scale: 0 }
    }

    pub open spec fn spec_new(neg: bool, mag: u128, scale: u32) -> Option<Amount> {
        if scale <= MAX_SCALE {
            Some(Amount { neg: neg && mag != 0, mag, scale })
        } else {
            None
        }
    }

    pub open spec fn spec_neg(a: Amount) -> Amount {
        if a.mag == 0 {
            a
        } else {
            Amount { neg: !a.neg, mag: a.mag, scale: a.scale }
        }
    }

    /// The joined scale at which two amounts are combined.
    pub open spec fn joined_scale(a: Amount, b: Amount) -> u32 {
        if a.scale >= b.scale {
            a.scale
        } else {
            b.scale
        }
    }

    /// Exact addition at the joined scale.  `None` when either operand or
    /// the sum needs a magnitude beyond `u128::MAX` at that scale.
    pub open spec fn spec_add(a: Amount, b: Amount) -> Option<Amount> {
        let s = Self::joined_scale(a, b);
        let va = a.units_at(s);
        let vb = b.units_at(s);
        let v = va + vb;
        if -(u128::MAX as int) <= va <= u128::MAX as int && -(u128::MAX as int) <= vb
            <= u128::MAX as int && -(u128::MAX as int) <= v <= u128::MAX as int {
            Some(
                Amount {
                    neg: v < 0,
                    mag: (if v < 0 {
                        -v
                    } else {
                        v
                    }) as u128,
                    scale: s,
                },
            )
        } else {
            None
        }
    }

    pub open spec fn spec_sub(a: Amount, b: Amount) -> Option<Amount> {
        Self::spec_add(a, Self::spec_neg(b))
    }
}

/// Relates the units of an amount at a scale `s` to its value: scaling up
/// from `s` to `MAX_SCALE` multiplies by the remaining power of ten.
pub proof fn lemma_units_value(a: Amount, s: u32)
    requires
        a.scale <= s <= MAX_SCALE,
    ensures
        a.value() == a.units_at(s) * pow10((MAX_SCALE - s) as nat),
{
    let m = a.mag as int;
    let e1 = (s - a.scale) as nat;
    let e2 = (MAX_SCALE - s) as nat;
    lemma_pow10_adds(e1, e2);
    assert(m * (pow10(e1) * pow10(e2)) == (m * pow10(e1)) * pow10(e2)) by (nonlinear_arith);
    if a.neg {
        lemma_mul_neg(m * pow10(e1), pow10(e2));
    }
}

pub proof fn lemma_zero_value()
    ensures
        Amount::spec_zero().valid(),
        Amount::spec_zero().value() == 0,
{
    let p = pow10((MAX_SCALE - 0) as nat);
    assert(0 * p == 0) by (nonlinear_arith);
}

pub proof fn lemma_neg_value(a: Amount)
    requires
        a.valid(),
    ensures
        Amount::spec_neg(a).valid(),
        Amount::spec_neg(a).value() == -a.value(),
        Amount::spec_neg(a).scale == a.scale,
{
}

/// A successful addition is exact: the value of the result is the sum of
/// the values of the operands.
pub proof fn lemma_add_value(a: Amount, b: Amount)
    requires
        a.valid(),
        b.valid(),
        Amount::spec_add(a, b) is Some,
    ensures
        Amount::spec_add(a, b)->Some_0.valid(),
        Amount::spec_add(a, b)->Some_0.value() == a.value() + b.value(),
        Amount::spec_add(a, b)->Some_0.scale == Amount::joined_scale(a, b),
{
    let s = Amount::joined_scale(a, b);
    let c = Amount::spec_add(a, b)->Some_0;
    let va = a.units_at(s);
    let vb = b.units_at(s);
    let p = pow10((MAX_SCALE - s) as nat);
    lemma_units_value(a, s);
    lemma_units_value(b, s);
    lemma_units_value(c, s);
    if va + vb < 0 {
        lemma_mul_neg((-(va + vb)), p);
    }
    assert(c.units_at(s) == va + vb);
    assert((va + vb) * p == va * p + vb * p) by (nonlinear_arith);
}

impl Amount {
    /// The zero amount, at scale zero.
    pub fn zero() -> (r: Amount)
        ensures
            r == Amount::spec_zero(),
    {
        Amount { neg: false, mag: 0, scale: 0 }
    }

    /// Builds the amount `mag * 10^(-scale)`, negated when `neg` holds.
    /// `None` when the scale is beyond [`MAX_SCALE`].
    pub fn new(neg: bool, mag: u128, scale: u32) -> (r: Option<Amount>)
        ensures
            r == Amount::spec_new(neg, mag, scale),
    {
        if scale <= MAX_SCALE {
            Some(Amount { neg: neg && mag != 0, mag, scale })
        } else {
            None
        }
    }

    pub fn negate(self) -> (r: Amount)
        ensures
            r == Amount::spec_neg(self),
    {
        if self.mag == 0 {
            self
        } else {
            Amount { neg: !self.neg, mag: self.mag, scale: self.scale }
        }
    }

    /// Runtime check of [`Amount::valid`], for callers outside verified
    /// code.
    pub fn is_valid(&self) -> (r: bool)
        ensures
            r == self.valid(),
    {
        self.scale <= MAX_SCALE && (self.mag != 0 || !self.neg)
    }

    /// `mag * 10^k`, or `None` past `u128::MAX`.
    fn scale_up_mag(mag: u128, k: u32) -> (r: Option<u128>)
        requires
            k <= MAX_SCALE,
        ensures
            match r {
                Some(m) => m == mag * pow10(k as nat),
                None => mag * pow10(k as nat) > u128::MAX,
            },
    {
        let mut cur: u128 = mag;
        let mut i: u32 = 0;
        while i < k
            invariant
                i <= k,
                k <= MAX_SCALE,
                cur == mag * pow10(i as nat),
            decreases k - i,
    {
            if cur > U128_MAX_DIV_10 {
                proof {
                    let rest = (k - i) as nat;
                    lemma_pow10_adds(i as nat, rest);
                    lemma_pow10_pos((rest - 1) as nat);
                    assert(mag * (pow10(i as nat) * pow10(rest)) == (mag * pow10(i as nat)) * pow10(
                        rest,
                    )) by (nonlinear_arith);
                    assert(cur * pow10(rest) >= cur * 10) by (nonlinear_arith)
                        requires
                            cur >= 0,
                            pow10(rest) >= 10,
                    ;
                }
                return None;
            }
            proof {
                lemma_pow10_adds(i as nat, 1);
                assert((mag * pow10(i as nat)) * 10 == mag * (pow10(i as nat) * 10))
                    by (nonlinear_arith);
            }
            cur = cur * 10;
            i = i + 1;
        }
        Some(cur)
    }

    /// Signed addition of two unit counts at a common scale.
    fn add_units(na: bool, ma: u128, nb: bool, mb: u128) -> (r: Option<(bool, u128)>)
        ensures
            match r {
                Some(p) => signed(p.0, p.1) == signed(na, ma) + signed(nb, mb) && (p.1 == 0
                    ==> !p.0),
                None => signed(na, ma) + signed(nb, mb) > u128::MAX as int || signed(na, ma)
                    + signed(nb, mb) < -(u128::MAX as int),
            },
    {
        if na == nb {
            if ma > u128::MAX - mb {
                None
            } else {
                let m = ma + mb;
                Some(((na && m != 0), m))
            }
        } else if ma >= mb {
            let m = ma - mb;
            Some(((na && m != 0), m))
        } else {
            let m = mb - ma;
            Some(((nb && m != 0), m))
        }
    }

    /// Exact addition at the joined scale; `None` when an operand or the
    /// sum is not representable there.
    pub fn checked_add(self, other: Amount) -> (r: Option<Amount>)
        requires
            self.valid(),
            other.valid(),
        ensures
            r == Amount::spec_add(self, other),
    {
        let s = if self.scale >= other.scale {
            self.scale
        } else {
            other.scale
        };
        let ma = match Self::scale_up_mag(self.mag, s - self.scale) {
            Some(m) => m,
            None => {
                return None;
            },
        };
        let mb = match Self::scale_up_mag(other.mag, s - other.scale) {
            Some(m) => m,
            None => {
                return None;
            },
        };
        proof {
            assert(self.units_at(s) == signed(self.neg, ma));
            assert(other.units_at(s) == signed(other.neg, mb));
        }
        match Self::add_units(self.neg, ma, other.neg, mb) {
            Some(p) => Some(Amount { neg: p.0, mag: p.1, scale: s }),
            None => None,
        }
    }

    /// Exact subtraction at the joined scale; `None` when an operand or
    /// the difference is not representable there.
    pub fn checked_sub(self, other: Amount) -> (r: Option<Amount>)
        requires
            self.valid(),
            other.valid(),
        ensures
            r == Amount::spec_sub(self, other),
    {
        self.checked_add(other.negate())
    }

    /// Exact decimal comparison.
    pub fn ge(self, other: Amount) -> (r: bool)
        requires
            self.valid(),
            other.valid(),
        ensures
            r == (self.value() >= other.value()),
    {
        let s = if self.scale >= other.scale {
            self.scale
        } else {
            other.scale
        };
        proof {
            lemma_units_value(self, s);
            lemma_units_value(other, s);
            lemma_pow10_pos((MAX_SCALE - s) as nat);
            let p = pow10((MAX_SCALE - s) as nat);
            assert((self.units_at(s) * p >= other.units_at(s) * p) <==> (self.units_at(s)
                >= other.units_at(s))) by (nonlinear_arith)
                requires
                    p >= 1,
            ;
        }
        let ma = match Self::scale_up_mag(self.mag, s - self.scale) {
            Some(m) => m,
            None => {
                // Only the side with the smaller scale is scaled up, so the
                // other side's units fit in `u128`; the overflowing side's
                // sign settles the comparison.
                proof {
                    assert(other.scale == s);
                    assert(other.units_at(s) == signed(other.neg, other.mag));
                }
                return !self.neg;
            },
        };
        let mb = match Self::scale_up_mag(other.mag, s - other.scale) {
            Some(m) => m,
            None => {
                proof {
                    assert(self.scale == s);
                    assert(self.units_at(s) == signed(self.neg, self.mag));
                }
                return other.neg;
            },
        };
        proof {
            assert(self.units_at(s) == signed(self.neg, ma));
            assert(other.units_at(s) == signed(other.neg, mb));
        }
        if self.neg == other.neg {
            if self.neg {
                ma <= mb
            } else {
                ma >= mb
            }
        } else {
            // Opposite signs: the non-negative side is greater unless both
            // magnitudes are zero.
            if self.neg {
                ma == 0 && mb == 0
            } else {
                true
            }
        }
    }
}

impl PartialEq for Amount {
    /// Exact decimal equality: `0.50` and `0.5` are the same amount.
    fn eq(&self, other: &Amount) -> (r: bool) {
        if self.is_valid() && other.is_valid() {
            let ge1 = self.ge(*other);
            let ge2 = other.ge(*self);
            ge1 && ge2
        } else {
            self.neg == other.neg && self.mag == other.mag && self.scale == other.scale
        }
    }
}

impl vstd::std_specs::cmp::PartialEqSpecImpl for Amount {
    open spec fn obeys_eq_spec() -> bool {
        true
    }

    open spec fn eq_spec(&self, other: &Amount) -> bool {
        if self.valid() && other.valid() {
            self.value() == other.value()
        } else {
            *self == *other
        }
    }
}

} // verus!
